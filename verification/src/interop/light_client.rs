//! The verification core shared by every chain adapter.
//!
//! A *light client* tracks a foreign chain's header sequence and verifies its
//! consensus rules, so the bridge can confirm "event E happened on chain C"
//! from a succinct proof rather than by trusting a relayer.

use std::collections::BTreeMap;
use vstd::prelude::*;

use crate::account;
use crate::account::AccountId;
use crate::bytes;
use crate::crypto::Signature;
use crate::hash;
use crate::merkle;
use crate::merkle::MerkleProof;
use crate::text;

verus! {

/// Identifier of a foreign chain tracked by the bridge.
#[derive(Clone, Copy, PartialEq, Eq, PartialOrd, Ord, Hash, Debug)]
pub struct ForeignChainId(pub u64);

/// Why a cross-chain verification step failed.
#[derive(Clone, Copy, Debug, PartialEq, Eq)]
#[allow(inconsistent_fields)]
pub enum InteropError {
    /// No light client registered for this foreign chain.
    UnknownChain,
    /// A chain is already registered under this id.
    ChainAlreadyRegistered,
    /// Header does not extend the trusted tip (parent mismatch).
    BrokenLink { expected_parent: hash::Hash, got: hash::Hash },
    /// Header height is not exactly tip + 1.
    NonContiguousHeight { expected: u64, got: u64 },
    /// Proof-of-work header hash does not meet the target.
    InsufficientWork,
    /// Wrong consensus proof kind for this adapter (e.g. PoW proof to a BFT
    /// client).
    WrongConsensusProof,
    /// Fewer than the required distinct valid validator signatures.
    QuorumNotMet { have: usize, need: usize },
    /// A signature in the consensus proof did not verify.
    BadSignature,
    /// The proof references a header height this client has not verified.
    UnknownHeader { height: u64 },
    /// The event is not committed under the referenced header's event root.
    EventNotIncluded,
    /// This inbound event sequence was already redeemed (replay).
    AlreadyProcessed { sequence: u64 },
}

/// A foreign block header in the common representation. Adapter-specific
/// validity (work, signatures) is supplied separately as a
/// [`ConsensusProof`]; the fields here are what every adapter commits to.
#[derive(Clone, Copy, Debug, PartialEq, Eq)]
pub struct ForeignHeader {
    pub height: u64,
    pub parent: hash::Hash,
    /// Merkle root of the cross-chain events committed in this block.
    pub event_root: hash::Hash,
    /// Free nonce; the proof-of-work adapter varies it to meet its target,
    /// other adapters leave it zero.
    pub nonce: u64,
}

impl ForeignHeader {
    /// The hashed fields, in order.
    pub open spec fn parts(self) -> Seq<Seq<u8>> {
        seq![
            bytes::le64(self.height),
            self.parent@,
            self.event_root@,
            bytes::le64(self.nonce),
        ]
    }

    /// What is hashed for the digest.
    pub open spec fn hash_input(self) -> Seq<u8> {
        hash::tagged_preimage(text::utf8("phi:interop:header"@), self.parts())
    }

    pub open spec fn digest(self) -> hash::Hash {
        hash::tagged(text::utf8("phi:interop:header"@), self.parts())
    }

    /// Canonical header hash: the proof-of-work value *and* the message that
    /// BFT validators sign. Domain-separated and length-prefixed like every
    /// other consensus hash.
    pub fn hash(&self) -> (h: hash::Hash)
        ensures
            h == self.digest(),
    {
        let height = bytes::u64_bytes(self.height);
        let nonce = bytes::u64_bytes(self.nonce);
        let parts: [&[u8]; 4] = [
            height.as_slice(),
            self.parent.0.as_slice(),
            self.event_root.0.as_slice(),
            nonce.as_slice(),
        ];
        assert(hash::part_views(parts@) =~= self.parts());
        hash::Hash::of_tagged("phi:interop:header".as_bytes(), &parts)
    }
}

/// One validator's signature over a foreign header (BFT adapters).
#[derive(Clone, Copy, Debug, PartialEq, Eq)]
pub struct SignerVote {
    pub signer: u32,
    pub signature: Signature,
}

/// Adapter-specific evidence that a header is canonical on its chain.
#[derive(Debug, PartialEq, Eq)]
pub enum ConsensusProof {
    /// Proof of work lives in the header itself (its hash meets the target).
    Pow,
    /// A quorum of foreign validator signatures over the header hash.
    Bft { votes: Vec<SignerVote> },
}

/// The contents of a [`ConsensusProof`].
#[verifier::ext_equal]
pub enum ProofView {
    Pow,
    Bft { votes: Seq<SignerVote> },
}

impl View for ConsensusProof {
    type V = ProofView;

    open spec fn view(&self) -> ProofView {
        match self {
            ConsensusProof::Pow => ProofView::Pow,
            ConsensusProof::Bft { votes } => ProofView::Bft { votes: votes@ },
        }
    }
}

impl Clone for ConsensusProof {
    fn clone(&self) -> (p: ConsensusProof)
        ensures
            p@ == self@,
    {
        match self {
            ConsensusProof::Pow => ConsensusProof::Pow,
            ConsensusProof::Bft { votes } => {
                let copy = votes.clone();
                assert(copy@ =~= votes@);
                ConsensusProof::Bft { votes: copy }
            },
        }
    }
}

/// A cross-chain transfer event emitted by a foreign chain: "`amount` units
/// were locked on `foreign_chain`, to be credited to account `beneficiary`".
/// `sequence` is the chain's monotonic event counter and the replay key.
#[derive(Clone, Copy, Debug, PartialEq, Eq)]
pub struct CrossChainEvent {
    pub foreign_chain: ForeignChainId,
    pub sequence: u64,
    pub beneficiary: AccountId,
    pub amount: u64,
}

impl CrossChainEvent {
    /// The hashed fields, in order.
    pub open spec fn parts(self) -> Seq<Seq<u8>> {
        seq![
            bytes::le64(self.foreign_chain.0),
            bytes::le64(self.sequence),
            self.beneficiary@,
            bytes::le64(self.amount),
        ]
    }

    /// What is hashed for the digest.
    pub open spec fn hash_input(self) -> Seq<u8> {
        hash::tagged_preimage(text::utf8("phi:interop:event"@), self.parts())
    }

    pub open spec fn digest(self) -> hash::Hash {
        hash::tagged(text::utf8("phi:interop:event"@), self.parts())
    }

    /// Leaf hash committed into a foreign header's `event_root`.
    pub fn hash(&self) -> (h: hash::Hash)
        ensures
            h == self.digest(),
    {
        let chain = bytes::u64_bytes(self.foreign_chain.0);
        let sequence = bytes::u64_bytes(self.sequence);
        let amount = bytes::u64_bytes(self.amount);
        let parts: [&[u8]; 4] = [
            chain.as_slice(),
            sequence.as_slice(),
            self.beneficiary.0.0.as_slice(),
            amount.as_slice(),
        ];
        assert(hash::part_views(parts@) =~= self.parts());
        hash::Hash::of_tagged("phi:interop:event".as_bytes(), &parts)
    }
}

/// Merkle inclusion proof that an event sits in a specific verified header.
#[derive(Debug, PartialEq, Eq)]
pub struct EventProof {
    pub header_height: u64,
    pub leaf_index: usize,
    pub leaf_count: usize,
    pub merkle: MerkleProof,
}

/// The contents of an [`EventProof`].
#[verifier::ext_equal]
pub struct EventProofView {
    pub header_height: u64,
    pub leaf_index: usize,
    pub leaf_count: usize,
    pub siblings: Seq<hash::Hash>,
}

impl EventProofView {
    /// All that is hashed to check the proof for an event.
    pub open spec fn hash_inputs(self, event_hash: hash::Hash) -> Set<Seq<u8>> {
        merkle::proof_inputs(
            event_hash,
            self.leaf_index as int,
            self.leaf_count as nat,
            self.siblings,
        )
    }
}

impl View for EventProof {
    type V = EventProofView;

    open spec fn view(&self) -> EventProofView {
        EventProofView {
            header_height: self.header_height,
            leaf_index: self.leaf_index,
            leaf_count: self.leaf_count,
            siblings: self.merkle@,
        }
    }
}

impl Clone for EventProof {
    fn clone(&self) -> (p: EventProof)
        ensures
            p@ == self@,
    {
        EventProof {
            header_height: self.header_height,
            leaf_index: self.leaf_index,
            leaf_count: self.leaf_count,
            merkle: self.merkle.clone(),
        }
    }
}

/// A header chain as a light client knows it: the trusted tip, and the event
/// root of every verified header by height.
#[verifier::ext_equal]
pub struct ChainView {
    pub tip_height: u64,
    pub tip_hash: hash::Hash,
    pub event_roots: Map<u64, hash::Hash>,
}

impl ChainView {
    /// The chain that holds the trusted genesis header alone.
    pub open spec fn genesis(header: ForeignHeader) -> ChainView {
        ChainView {
            tip_height: header.height,
            tip_hash: header.digest(),
            event_roots: Map::empty().insert(header.height, header.event_root),
        }
    }

    /// Whether `header` is the next one after the tip.
    pub open spec fn link(self, header: ForeignHeader) -> Result<(), InteropError> {
        if header.height != self.tip_height + 1 {
            Err(
                InteropError::NonContiguousHeight {
                    expected: (self.tip_height + 1) as u64,
                    got: header.height,
                },
            )
        } else if header.parent != self.tip_hash {
            Err(InteropError::BrokenLink { expected_parent: self.tip_hash, got: header.parent })
        } else {
            Ok(())
        }
    }

    /// The chain with `header` as its new tip.
    pub open spec fn append(self, header: ForeignHeader) -> ChainView {
        ChainView {
            tip_height: header.height,
            tip_hash: header.digest(),
            event_roots: self.event_roots.insert(header.height, header.event_root),
        }
    }

    /// Whether a proof places an event under the header that it names.
    pub open spec fn inclusion(self, event_hash: hash::Hash, proof: EventProofView) -> Result<
        (),
        InteropError,
    > {
        if !self.event_roots.contains_key(proof.header_height) {
            Err(InteropError::UnknownHeader { height: proof.header_height })
        } else if !merkle::proves(
            self.event_roots[proof.header_height],
            event_hash,
            proof.leaf_index as int,
            proof.leaf_count as nat,
            proof.siblings,
        ) {
            Err(InteropError::EventNotIncluded)
        } else {
            Ok(())
        }
    }
}

/// What a foreign chain's rules say of a header that comes with a consensus
/// proof, given the headers verified so far.
pub type Rules = spec_fn(ChainView, ForeignHeader, ProofView) -> Result<(), InteropError>;

/// A foreign-chain verifier.
///
/// To the bridge a client is the chain that it has verified and the rules by
/// which it accepts the next header. The rules never change, and they accept
/// only a header that extends the trusted tip.
pub trait LightClient: Send {
    /// The adapter's name.
    spec fn name(&self) -> Seq<char>;

    /// The headers verified so far.
    spec fn chain(&self) -> ChainView;

    /// How the next header is judged.
    spec fn rules(&self) -> Rules;

    /// Adapter name, e.g. `"pow"` or `"bft"`.
    fn protocol(&self) -> (name: &'static str)
        ensures
            name@ == self.name(),
    ;

    /// Verify `header` under `proof` and adopt it as the new tip. Must reject
    /// anything that does not extend the trusted chain.
    fn submit_header(&mut self, header: &ForeignHeader, proof: &ConsensusProof) -> (res: Result<
        (),
        InteropError,
    >)
        requires
            old(self).chain().tip_height < u64::MAX,
        ensures
            res == (old(self).rules())(old(self).chain(), *header, proof@),
            res is Ok ==> old(self).chain().link(*header) is Ok,
            final(self).chain() == if res is Ok {
                old(self).chain().append(*header)
            } else {
                old(self).chain()
            },
            final(self).rules() == old(self).rules(),
            final(self).name() == old(self).name(),
    ;

    /// Height of the trusted tip (the genesis header's height at first).
    fn tip_height(&self) -> (height: u64)
        ensures
            height == self.chain().tip_height,
    ;

    /// Verify that `event_hash` is committed under the trusted header named by
    /// `proof`.
    fn verify_event(&self, event_hash: hash::Hash, proof: &EventProof) -> (res: Result<
        (),
        InteropError,
    >)
        ensures
            res == self.chain().inclusion(event_hash, proof@),
    ;
}

/// What the bridge knows of a client.
#[verifier::ext_equal]
pub struct ClientView {
    pub chain: ChainView,
    pub rules: Rules,
}

/// A light client of any kind, as the bridge's registry holds it.
pub struct ClientBox {
    pub client: Box<dyn LightClient>,
}

impl View for ClientBox {
    type V = ClientView;

    open spec fn view(&self) -> ClientView {
        ClientView { chain: self.client.chain(), rules: self.client.rules() }
    }
}

/// A light client that the bridge can hold in one registry with others.
pub trait IntoClientBox: LightClient + Sized {
    fn boxed(self) -> (b: ClientBox)
        ensures
            b@.chain == self.chain(),
            b@.rules == self.rules(),
    ;
}

impl ClientBox {
    /// Hand a header to the client.
    pub fn submit_header(&mut self, header: &ForeignHeader, proof: &ConsensusProof) -> (res: Result<
        (),
        InteropError,
    >)
        requires
            old(self)@.chain.tip_height < u64::MAX,
        ensures
            res == (old(self)@.rules)(old(self)@.chain, *header, proof@),
            res is Ok ==> old(self)@.chain.link(*header) is Ok,
            final(self)@ == (ClientView {
                chain: if res is Ok {
                    old(self)@.chain.append(*header)
                } else {
                    old(self)@.chain
                },
                rules: old(self)@.rules,
            }),
    {
        self.client.submit_header(header, proof)
    }

    pub fn tip_height(&self) -> (height: u64)
        ensures
            height == self@.chain.tip_height,
    {
        self.client.tip_height()
    }

    pub fn verify_event(&self, event_hash: hash::Hash, proof: &EventProof) -> (res: Result<
        (),
        InteropError,
    >)
        ensures
            res == self@.chain.inclusion(event_hash, proof@),
    {
        self.client.verify_event(event_hash, proof)
    }
}

/// Shared header bookkeeping reused by every adapter: tip tracking, linkage
/// checks, and the committed event roots needed for inclusion proofs.
pub struct HeaderChain {
    tip_height: u64,
    tip_hash: hash::Hash,
    event_roots: BTreeMap<u64, hash::Hash>,
}

impl View for HeaderChain {
    type V = ChainView;

    closed spec fn view(&self) -> ChainView {
        ChainView {
            tip_height: self.tip_height,
            tip_hash: self.tip_hash,
            event_roots: self.event_roots@,
        }
    }
}

impl HeaderChain {
    /// Start from a trusted genesis header (its validity is taken for granted:
    /// it is the light client's trust root).
    pub fn genesis(header: &ForeignHeader) -> (c: HeaderChain)
        ensures
            c@ == ChainView::genesis(*header),
    {
        let mut event_roots: BTreeMap<u64, hash::Hash> = BTreeMap::new();
        event_roots.insert(header.height, header.event_root);
        HeaderChain { tip_height: header.height, tip_hash: header.hash(), event_roots }
    }

    /// Check that `header` cleanly extends the current tip.
    pub fn check_link(&self, header: &ForeignHeader) -> (res: Result<(), InteropError>)
        requires
            self@.tip_height < u64::MAX,
        ensures
            res == self@.link(*header),
    {
        if header.height != self.tip_height + 1 {
            return Err(
                InteropError::NonContiguousHeight {
                    expected: self.tip_height + 1,
                    got: header.height,
                },
            );
        }
        if header.parent != self.tip_hash {
            return Err(
                InteropError::BrokenLink { expected_parent: self.tip_hash, got: header.parent },
            );
        }
        Ok(())
    }

    /// Adopt a header that has already passed linkage and consensus checks.
    pub fn append(&mut self, header: &ForeignHeader)
        ensures
            final(self)@ == old(self)@.append(*header),
    {
        self.tip_height = header.height;
        self.tip_hash = header.hash();
        self.event_roots.insert(header.height, header.event_root);
    }

    pub fn tip_height(&self) -> (height: u64)
        ensures
            height == self@.tip_height,
    {
        self.tip_height
    }

    /// Verify an event inclusion proof against the stored event root.
    pub fn verify_event(&self, event_hash: hash::Hash, proof: &EventProof) -> (res: Result<
        (),
        InteropError,
    >)
        ensures
            res == self@.inclusion(event_hash, proof@),
    {
        match self.event_roots.get(&proof.header_height) {
            None => Err(InteropError::UnknownHeader { height: proof.header_height }),
            Some(root) => {
                if merkle::verify(
                    root,
                    &event_hash,
                    proof.leaf_index,
                    proof.leaf_count,
                    &proof.merkle,
                ) {
                    Ok(())
                } else {
                    Err(InteropError::EventNotIncluded)
                }
            },
        }
    }
}

/// A header hash commits to every field of the header, unless the hash inputs
/// collide.
pub proof fn law_header_hash_binds(a: ForeignHeader, b: ForeignHeader)
    requires
        a.digest() == b.digest(),
    ensures
        a == b || hash::collide(a.hash_input(), b.hash_input()),
{
    broadcast use bytes::lemma_le_bytes_len;

    let tag = text::utf8("phi:interop:header"@);
    reveal_strlit("phi:interop:header");
    text::lemma_utf8_len("phi:interop:header"@);
    hash::law_tagged_binds(tag, a.parts(), tag, b.parts());
    if !hash::collide(a.hash_input(), b.hash_input()) {
        let (p, q) = (a.parts(), b.parts());
        assert(p[0] == q[0] && p[1] == q[1] && p[2] == q[2] && p[3] == q[3]);
        bytes::lemma_le64_injective(a.height, b.height);
        hash::lemma_hash_ext(a.parent, b.parent);
        hash::lemma_hash_ext(a.event_root, b.event_root);
        bytes::lemma_le64_injective(a.nonce, b.nonce);
    }
}

/// An event hash commits to the chain, the sequence, the beneficiary and the
/// amount, unless the hash inputs collide.
pub proof fn law_event_hash_binds(a: CrossChainEvent, b: CrossChainEvent)
    requires
        a.digest() == b.digest(),
    ensures
        a == b || hash::collide(a.hash_input(), b.hash_input()),
{
    broadcast use bytes::lemma_le_bytes_len;

    let tag = text::utf8("phi:interop:event"@);
    reveal_strlit("phi:interop:event");
    text::lemma_utf8_len("phi:interop:event"@);
    hash::law_tagged_binds(tag, a.parts(), tag, b.parts());
    if !hash::collide(a.hash_input(), b.hash_input()) {
        let (p, q) = (a.parts(), b.parts());
        assert(p[0] == q[0] && p[1] == q[1] && p[2] == q[2] && p[3] == q[3]);
        bytes::lemma_le64_injective(a.foreign_chain.0, b.foreign_chain.0);
        bytes::lemma_le64_injective(a.sequence, b.sequence);
        account::lemma_id_ext(a.beneficiary, b.beneficiary);
        bytes::lemma_le64_injective(a.amount, b.amount);
    }
}

/// The chain that a client knows once it has adopted `headers` in order.
pub open spec fn after_headers(genesis: ForeignHeader, headers: Seq<ForeignHeader>) -> ChainView
    decreases headers.len(),
{
    if headers.len() == 0 {
        ChainView::genesis(genesis)
    } else {
        after_headers(genesis, headers.drop_last()).append(headers.last())
    }
}

/// Whether each of the headers extended the tip when it was adopted.
pub open spec fn adopted(genesis: ForeignHeader, headers: Seq<ForeignHeader>) -> bool {
    forall|i: int|
        0 <= i < headers.len() ==> (#[trigger] after_headers(genesis, headers.take(i))).link(
            headers[i],
        ) is Ok
}

/// The header at a distance from the genesis header.
pub open spec fn header_at(
    genesis: ForeignHeader,
    headers: Seq<ForeignHeader>,
    i: int,
) -> ForeignHeader {
    if i == 0 {
        genesis
    } else {
        headers[i - 1]
    }
}

/// The trusted headers form one chain: each names the hash of the one before
/// it as its parent, heights count up by one from the genesis header, and the
/// client holds the event root of exactly these headers.
pub proof fn law_trusted_headers_form_a_chain(
    genesis: ForeignHeader,
    headers: Seq<ForeignHeader>,
)
    requires
        adopted(genesis, headers),
    ensures
        forall|i: int|
            0 < i <= headers.len() ==> (#[trigger] header_at(genesis, headers, i)).parent
                == header_at(genesis, headers, i - 1).digest(),
        forall|i: int|
            0 <= i <= headers.len() ==> (#[trigger] header_at(genesis, headers, i)).height
                == genesis.height + i,
        after_headers(genesis, headers).tip_height == genesis.height + headers.len(),
        after_headers(genesis, headers).tip_hash == header_at(
            genesis,
            headers,
            headers.len() as int,
        ).digest(),
        forall|h: u64| #[trigger]
            after_headers(genesis, headers).event_roots.contains_key(h) <==> genesis.height <= h
                <= genesis.height + headers.len(),
        forall|i: int|
            0 <= i <= headers.len() ==> after_headers(genesis, headers).event_roots[(
            #[trigger] header_at(genesis, headers, i)).height] == header_at(
                genesis,
                headers,
                i,
            ).event_root,
    decreases headers.len(),
{
    if headers.len() > 0 {
        let before = headers.drop_last();
        let n = headers.len() as int;
        assert forall|i: int| 0 <= i < before.len() implies (#[trigger] after_headers(
            genesis,
            before.take(i),
        )).link(before[i]) is Ok by {
            assert(before.take(i) =~= headers.take(i));
        }
        law_trusted_headers_form_a_chain(genesis, before);
        assert(headers.take(n - 1) =~= before);
        assert(after_headers(genesis, headers.take(n - 1)).link(headers[n - 1]) is Ok);
        assert forall|i: int| 0 <= i < n implies #[trigger] header_at(genesis, headers, i)
            == header_at(genesis, before, i) by {}
        assert(header_at(genesis, headers, n) == headers.last());
        let chain = after_headers(genesis, headers);
        assert forall|i: int| 0 <= i <= n implies chain.event_roots[(#[trigger] header_at(
            genesis,
            headers,
            i,
        )).height] == header_at(genesis, headers, i).event_root by {
            if i < n {
                assert(header_at(genesis, before, i).height == genesis.height + i);
            }
        }
        assert forall|i: int| 0 < i <= n implies (#[trigger] header_at(genesis, headers, i)).parent
            == header_at(genesis, headers, i - 1).digest() by {
            if i < n {
                assert(header_at(genesis, before, i - 1) == header_at(genesis, headers, i - 1));
                assert(header_at(genesis, before, i) == header_at(genesis, headers, i));
            }
        }
    }
}

/// What a client has verified is never rewritten: adopting a header that
/// extends the tip keeps every event root that the client held.
pub proof fn law_history_is_append_only(
    genesis: ForeignHeader,
    headers: Seq<ForeignHeader>,
    header: ForeignHeader,
    height: u64,
)
    requires
        adopted(genesis, headers),
        after_headers(genesis, headers).link(header) is Ok,
        after_headers(genesis, headers).event_roots.contains_key(height),
    ensures
        after_headers(genesis, headers).append(header).event_roots.contains_key(height),
        after_headers(genesis, headers).append(header).event_roots[height] == after_headers(
            genesis,
            headers,
        ).event_roots[height],
{
    law_trusted_headers_form_a_chain(genesis, headers);
}

/// An event that a trusted header commits to verifies with the Merkle proof
/// built from the header's events.
pub proof fn law_committed_events_verify(
    chain: ChainView,
    events: Seq<hash::Hash>,
    height: u64,
    index: usize,
    count: usize,
)
    requires
        chain.event_roots.contains_key(height),
        chain.event_roots[height] == merkle::root_of(events),
        index < events.len(),
        count == events.len(),
    ensures
        chain.inclusion(
            events[index as int],
            EventProofView {
                header_height: height,
                leaf_index: index,
                leaf_count: count,
                siblings: merkle::path(merkle::leaf_level(events), index as int),
            },
        ) is Ok,
{
    merkle::law_proofs_verify(events, index as int);
}

/// An event that verifies is the one that a trusted header commits to at the
/// place the proof claims, unless two of the hash inputs of event root and
/// proof collide: a relayer can neither make an event up nor change one, nor
/// misplace it.
pub proof fn law_verified_events_are_committed(
    chain: ChainView,
    events: Seq<hash::Hash>,
    event_hash: hash::Hash,
    proof: EventProofView,
)
    requires
        events.len() <= u64::MAX,
        chain.event_roots[proof.header_height] == merkle::root_of(events),
        chain.inclusion(event_hash, proof) is Ok,
    ensures
        (proof.leaf_count == events.len() && event_hash == events[proof.leaf_index as int])
            || hash::collision_in(
            merkle::root_inputs(events).union(proof.hash_inputs(event_hash)),
        ),
{
    merkle::law_proofs_are_sound(
        events,
        event_hash,
        proof.leaf_index as int,
        proof.leaf_count as nat,
        proof.siblings,
    );
}

/// A header links exactly if it is the next one by height and names the tip as
/// its parent. A refusal tells what was expected and what came.
pub proof fn law_links_are_exact(chain: ChainView, header: ForeignHeader)
    requires
        chain.tip_height < u64::MAX,
    ensures
        match chain.link(header) {
            Ok(_) => header.height == chain.tip_height + 1 && header.parent == chain.tip_hash,
            Err(InteropError::NonContiguousHeight { expected, got }) => {
                &&& header.height != chain.tip_height + 1
                &&& expected == chain.tip_height + 1 && got == header.height
            },
            Err(InteropError::BrokenLink { expected_parent, got }) => {
                &&& header.height == chain.tip_height + 1 && header.parent != chain.tip_hash
                &&& expected_parent == chain.tip_hash && got == header.parent
            },
            Err(_) => false,
        },
{
}

/// Adopting a header makes it the tip and records its events at its height;
/// what is recorded at other heights stays. Trust starts at the genesis header.
pub proof fn law_adopting_moves_the_tip(chain: ChainView, header: ForeignHeader, height: u64)
    ensures
        ({
            let after = chain.append(header);
            let first = ChainView::genesis(header);
            &&& after.tip_height == header.height && after.tip_hash == header.digest()
            &&& after.event_roots.contains_key(header.height)
            &&& after.event_roots[header.height] == header.event_root
            &&& height != header.height ==> {
                &&& after.event_roots.contains_key(height) == chain.event_roots.contains_key(height)
                &&& chain.event_roots.contains_key(height) ==> after.event_roots[height]
                    == chain.event_roots[height]
            }
            &&& first.tip_height == header.height && first.tip_hash == header.digest()
            &&& first.event_roots.contains_key(height) <==> height == header.height
            &&& first.event_roots[header.height] == header.event_root
        }),
{
}

/// An event is included exactly if the header is trusted and the proof leads from
/// the event to the root that it recorded.
pub proof fn law_inclusion_is_against_the_trusted_root(
    chain: ChainView,
    event_hash: hash::Hash,
    proof: EventProofView,
)
    ensures
        ({
            let known = chain.event_roots.contains_key(proof.header_height);
            let proven = merkle::proves(
                chain.event_roots[proof.header_height],
                event_hash,
                proof.leaf_index as int,
                proof.leaf_count as nat,
                proof.siblings,
            );
            match chain.inclusion(event_hash, proof) {
                Ok(_) => known && proven,
                Err(InteropError::UnknownHeader { height }) => !known && height
                    == proof.header_height,
                Err(InteropError::EventNotIncluded) => known && !proven,
                Err(_) => false,
            }
        }),
{
}

} // verus!
