//! Round-based BFT-shaped consensus: rotating proposer, signed votes, quorum
//! certificates, and view change on failed rounds.
//!
//! Validators re-execute proposals and refuse to vote for incorrect roots;
//! Byzantine ones corrupt their proposals and vote blindly; a failed round
//! rotates the proposer instead of stalling. Networking and the pacemaker are
//! the caller's.

use vstd::prelude::*;

use crate::account::AccountId;
use crate::block;
use crate::block::{Block, BlockHeader, BlockView};
use crate::bytes;
use crate::cargo::FigGovernor;
use crate::consensus;
use crate::consensus::{
    EquivocationDetector, QcView, QuorumCertificate, SlashingEvidence, Vote,
};
use crate::crypto;
use crate::crypto::{Keypair, PublicKey};
use crate::executor;
use crate::hash;
use crate::merkle;
use crate::receipt;
use crate::receipt::Receipt;
use crate::state::{State, StateView};
use crate::state_laws;
use crate::text;
use crate::transaction;
use crate::transaction::{Transaction, TxView};

verus! {

/// Upper bound on transactions in a single block. Validators refuse to approve
/// a proposal exceeding it, so a malicious proposer cannot force the network
/// to re-execute an unbounded block.
pub const MAX_BLOCK_TXS: usize = 10_000;

/// Result of running one consensus round.
#[derive(Debug)]
pub enum RoundOutcome {
    /// Quorum approved; the block is committed with its certificate and
    /// execution receipts. (Boxed: a committed block dwarfs the rejection
    /// arm.)
    Committed { block: Box<Block>, qc: QuorumCertificate, receipts: Vec<Receipt> },
    /// Not enough approving votes; the proposal is discarded, the view
    /// advances (next proposer), and the batch is handed back to the caller
    /// for re-queuing: transactions must never die with a bad proposal.
    Rejected { proposer: u32, approvals: usize, needed: usize, txs: Vec<Transaction> },
}

/// The contents of a [`RoundOutcome`].
#[verifier::ext_equal]
pub enum OutcomeView {
    Committed { block: BlockView, qc: QcView, receipts: Seq<Receipt> },
    Rejected { proposer: u32, approvals: nat, needed: nat, txs: Seq<TxView> },
}

impl View for RoundOutcome {
    type V = OutcomeView;

    open spec fn view(&self) -> OutcomeView {
        match self {
            RoundOutcome::Committed { block, qc, receipts } => OutcomeView::Committed {
                block: block@,
                qc: qc@,
                receipts: receipts@,
            },
            RoundOutcome::Rejected { proposer, approvals, needed, txs } => OutcomeView::Rejected {
                proposer: *proposer,
                approvals: *approvals as nat,
                needed: *needed as nat,
                txs: transaction::tx_views(txs@),
            },
        }
    }
}

/// One simulated validator: each keeps an independent copy of state, signs its
/// votes, and only approves proposals whose declared roots match its own
/// re-execution. Byzantine validators corrupt their proposals and approve
/// everything; safety must hold anyway.
pub struct Validator {
    pub index: u32,
    pub state: State,
    pub byzantine: bool,
    /// Cargo guard policy this validator enforces when voting: fig issuance
    /// rules and the supply-conservation tripwire. Default: issuance frozen.
    pub governor: FigGovernor,
    /// The key that it signs its votes with.
    pub keypair: Keypair,
}

/// The contents of a [`Validator`].
#[verifier::ext_equal]
pub struct ValidatorView {
    pub index: u32,
    pub state: StateView,
    pub byzantine: bool,
    pub governor: FigGovernor,
    /// The secret seed of its signing key.
    pub seed: Seq<u8>,
}

impl View for Validator {
    type V = ValidatorView;

    open spec fn view(&self) -> ValidatorView {
        ValidatorView {
            index: self.index,
            state: self.state@,
            byzantine: self.byzantine,
            governor: self.governor,
            seed: self.keypair@,
        }
    }
}

/// The label that the simulation key of a validator derives from.
pub open spec fn validator_label(index: u32) -> Seq<char> {
    "phi:validator:"@ + text::decimal(index as nat)
}

impl ValidatorView {
    /// A fresh validator.
    pub open spec fn fresh(index: u32, genesis: StateView) -> ValidatorView {
        ValidatorView {
            index,
            state: genesis,
            byzantine: false,
            governor: FigGovernor { minter: None, max_mint_per_block: 0 },
            seed: crypto::label_seed(validator_label(index)),
        }
    }

    pub open spec fn key(self) -> PublicKey {
        crypto::public_key_of(self.seed)
    }

    /// Whether the validator executes a block before it votes: a Byzantine one
    /// does not care to, and an honest one refuses a block for another network
    /// or over the size limit outright.
    pub open spec fn executes(self, block: BlockView) -> bool {
        &&& !self.byzantine
        &&& block.header.chain_id == self.state.chain_id
        &&& block.transactions.len() <= MAX_BLOCK_TXS
    }

    /// Whether the validator approves a block. An honest one re-executes the
    /// block, compares every commitment of the header, and audits it.
    pub open spec fn approves(self, block: BlockView) -> bool {
        let txs = block.transactions;
        let after = self.state.apply_all(txs);
        let receipts = self.state.receipts(txs);
        self.byzantine || {
            &&& block.header.chain_id == self.state.chain_id
            &&& txs.len() <= MAX_BLOCK_TXS
            &&& block.header.tx_root == block::tx_root_of(txs)
            &&& block.header.state_root == after.root()
            &&& block.header.receipts_root == receipt::receipts_root_of(receipts)
            &&& self.governor.audit(
                self.state.supply() as u128,
                after.supply() as u128,
                txs,
                receipts,
            ) is Ok
        }
    }

    /// The signed vote for a given verdict.
    pub open spec fn signed_vote(
        self,
        block_hash: hash::Hash,
        height: u64,
        view: u64,
        approve: bool,
    ) -> Vote {
        Vote {
            validator: self.index,
            block_hash,
            height,
            view,
            approve,
            signature: crypto::signature_of(
                self.seed,
                consensus::vote_digest(block_hash, height, view, approve)@,
            ),
        }
    }

    /// The vote that the validator casts on a block.
    pub open spec fn vote(self, block: BlockView, view: u64) -> Vote {
        self.signed_vote(
            block.header.digest(),
            block.header.height,
            view,
            self.approves(block),
        )
    }

    /// The validator after a block has been applied.
    pub open spec fn committed(self, txs: Seq<TxView>) -> ValidatorView {
        ValidatorView { state: self.state.apply_all(txs), ..self }
    }
}

impl Validator {
    /// Simulation keys are label-derived; real validators load keystore-backed
    /// keys.
    pub fn new(index: u32, genesis: State) -> (v: Validator)
        ensures
            v@ == ValidatorView::fresh(index, genesis@),
    {
        let mut label = String::new();
        label.append("phi:validator:");
        text::push_decimal(&mut label, index as u128);
        assert(label@ =~= validator_label(index));
        Validator {
            index,
            state: genesis,
            byzantine: false,
            governor: FigGovernor::default(),
            keypair: Keypair::from_label(label.as_str()),
        }
    }

    pub fn public_key(&self) -> (key: PublicKey)
        ensures
            key == self@.key(),
    {
        self.keypair.public()
    }

    /// Verify a proposal by re-executing it on a copy of local state, checking
    /// every header commitment (txs, state, receipts), and running the Cargo
    /// guard audit: a block that inflates fig supply or mints without
    /// authority is refused even though its roots are self-consistent. A block
    /// for the wrong network or one exceeding the per-block transaction limit
    /// is refused outright. The resulting vote is bound to `view` so it cannot
    /// be replayed into another round.
    pub fn vote(&self, block: &Block, view: u64) -> (vote: Vote)
        requires
            self@.executes(block@) ==> executor::can_take(self@.state, block@.transactions),
        ensures
            vote == self@.vote(block@, view),
            vote.signature@.take(32) != crypto::identity_point() ==> crypto::verifies(
                self@.key(),
                consensus::vote_digest(vote.block_hash, vote.height, view, vote.approve)@,
                vote.signature,
            ),
    {
        let approve: bool = if self.byzantine {
            // Votes blindly for anything, including corrupt proposals.
            true
        } else {
            self.checks_out(block)
        };
        let block_hash = block.header.hash();
        self.sign_vote(block_hash, block.header.height, view, approve)
    }

    /// The honest verdict on a block.
    fn checks_out(&self, block: &Block) -> (ok: bool)
        requires
            !self@.byzantine,
            self@.executes(block@) ==> executor::can_take(self@.state, block@.transactions),
        ensures
            ok == self@.approves(block@),
    {
        // The cheap refusals come first, so that an oversized block is never
        // executed.
        if block.header.chain_id != self.state.chain_id() {
            return false;
        }
        if block.transactions.len() > MAX_BLOCK_TXS {
            return false;
        }
        let pre_supply: u128 = self.state.total_supply();
        let mut scratch = self.state.clone();
        let out = executor::execute(&mut scratch, block.transactions.as_slice());
        let tx_root = Block::compute_tx_root(block.transactions.as_slice());
        let receipts_root = receipt::receipts_root(out.receipts.as_slice());
        let post_supply: u128 = scratch.total_supply();
        let audit = self.governor.audit_block(
            pre_supply,
            post_supply,
            block.transactions.as_slice(),
            out.receipts.as_slice(),
        );
        tx_root == block.header.tx_root && out.state_root == block.header.state_root
            && receipts_root == block.header.receipts_root && audit.is_ok()
    }

    /// Sign a vote for an arbitrary (block, height, view, approve) tuple. The
    /// honest path goes through [`Validator::vote`]; this lower-level helper
    /// exists so a Byzantine validator can be made to *equivocate* (sign two
    /// conflicting votes in one view) for slashing demonstrations and tests.
    pub fn sign_vote(&self, block_hash: hash::Hash, height: u64, view: u64, approve: bool) -> (vote:
        Vote)
        ensures
            vote == self@.signed_vote(block_hash, height, view, approve),
            vote.signature@.take(32) != crypto::identity_point() ==> crypto::verifies(
                self@.key(),
                consensus::vote_digest(block_hash, height, view, approve)@,
                vote.signature,
            ),
    {
        let message = consensus::vote_message(&block_hash, height, view, approve);
        Vote {
            validator: self.index,
            block_hash,
            height,
            view,
            approve,
            signature: self.keypair.sign(message.0.as_slice()),
        }
    }

    /// Apply a committed block to local state.
    pub fn commit(&mut self, block: &Block) -> (receipts: Vec<Receipt>)
        requires
            executor::can_take(old(self)@.state, block@.transactions),
        ensures
            final(self)@ == old(self)@.committed(block@.transactions),
            receipts@ == old(self)@.state.receipts(block@.transactions),
    {
        let out = executor::execute(&mut self.state, block.transactions.as_slice());
        out.receipts
    }
}

/// The contents of a chain.
pub open spec fn chain_views(chain: Seq<(Block, QuorumCertificate)>) -> Seq<(BlockView, QcView)> {
    Seq::new(chain.len(), |i: int| (chain[i].0@, chain[i].1@))
}

/// The contents of a validator set.
pub open spec fn validator_views(validators: Seq<Validator>) -> Seq<ValidatorView> {
    Seq::new(validators.len(), |i: int| validators[i]@)
}

/// Round-based BFT-shaped consensus over a set of simulated validators.
pub struct ConsensusEngine {
    pub validators: Vec<Validator>,
    pub height: u64,
    pub parent: hash::Hash,
    /// Network id; stamped into every proposed header and checked by voters.
    pub chain_id: u64,
    /// Monotonic view number; the proposer rotates with it, so a rejected
    /// round moves past a faulty proposer instead of retrying it forever.
    pub view: u64,
    /// Committed blocks with their quorum certificates (the light-client
    /// auditable chain).
    pub chain: Vec<(Block, QuorumCertificate)>,
    /// Slashing evidence collected across all rounds: any validator that signs
    /// two conflicting votes in one view incriminates itself here.
    pub slashing_evidence: Vec<SlashingEvidence>,
    /// Watches every vote the engine observes for equivocation.
    pub detector: EquivocationDetector,
}

/// The contents of a [`ConsensusEngine`].
#[verifier::ext_equal]
pub struct EngineView {
    pub validators: Seq<ValidatorView>,
    pub height: u64,
    pub parent: hash::Hash,
    pub chain_id: u64,
    pub view: u64,
    pub chain: Seq<(BlockView, QcView)>,
    pub evidence: Seq<SlashingEvidence>,
    /// The first vote of each validator in each view.
    pub seen: Map<(u32, u64), Vote>,
}

impl View for ConsensusEngine {
    type V = EngineView;

    open spec fn view(&self) -> EngineView {
        EngineView {
            validators: validator_views(self.validators@),
            height: self.height,
            parent: self.parent,
            chain_id: self.chain_id,
            view: self.view,
            chain: chain_views(self.chain@),
            evidence: self.slashing_evidence@,
            seen: self.detector@,
        }
    }
}

/// The hash with its first byte inverted.
pub open spec fn corrupted(h: hash::Hash) -> hash::Hash {
    choose|g: hash::Hash| g@ == h@.update(0, h@[0] ^ 0xffu8)
}

fn corrupt(h: hash::Hash) -> (g: hash::Hash)
    ensures
        g == corrupted(h),
{
    let mut b: [u8; 32] = h.0;
    b[0] = b[0] ^ 0xff;
    let g = hash::Hash(b);
    proof {
        assert(g@ =~= h@.update(0, h@[0] ^ 0xffu8));
        hash::lemma_hash_ext(g, corrupted(h));
    }
    g
}

/// A corrupted hash is another hash.
proof fn lemma_corrupted_differs(h: hash::Hash, g: hash::Hash)
    requires
        g@ == h@.update(0, h@[0] ^ 0xffu8),
    ensures
        corrupted(h) != h,
{
    let b = h@[0];
    assert(b ^ 0xffu8 != b) by (bit_vector);
    assert(corrupted(h)@[0] == b ^ 0xffu8);
}

/// Whether a vote's signature is of the kind that a signer's own signatures
/// are: all but those whose first half encodes the identity point, which strict
/// verification refuses.
pub open spec fn plain(vote: Vote) -> bool {
    vote.signature@.take(32) != crypto::identity_point()
}

/// The votes whose signature is that of the validator they claim.
pub open spec fn admissible(votes: Seq<Vote>, keys: Seq<PublicKey>) -> Seq<Vote>
    decreases votes.len(),
{
    if votes.len() == 0 {
        Seq::empty()
    } else {
        let before = admissible(votes.drop_last(), keys);
        if votes.last().valid(keys) {
            before.push(votes.last())
        } else {
            before
        }
    }
}

/// The approving ones among the votes.
pub open spec fn approving(votes: Seq<Vote>) -> Seq<Vote>
    decreases votes.len(),
{
    if votes.len() == 0 {
        Seq::empty()
    } else {
        let before = approving(votes.drop_last());
        if votes.last().approve {
            before.push(votes.last())
        } else {
            before
        }
    }
}

/// The votes seen after watching more of them.
pub open spec fn watched(seen: Map<(u32, u64), Vote>, votes: Seq<Vote>) -> Map<(u32, u64), Vote>
    decreases votes.len(),
{
    if votes.len() == 0 {
        seen
    } else {
        consensus::after_seeing(watched(seen, votes.drop_last()), votes.last())
    }
}

/// The evidence that watching the votes adds.
pub open spec fn gathered(
    seen: Map<(u32, u64), Vote>,
    evidence: Seq<SlashingEvidence>,
    votes: Seq<Vote>,
) -> Seq<SlashingEvidence>
    decreases votes.len(),
{
    if votes.len() == 0 {
        evidence
    } else {
        let before = gathered(seen, evidence, votes.drop_last());
        match consensus::evidence_in(watched(seen, votes.drop_last()), votes.last()) {
            Some(e) => before.push(e),
            None => before,
        }
    }
}

/// The certificate over a list of approving votes.
pub open spec fn certificate(header: BlockHeader, view: u64, votes: Seq<Vote>) -> QcView {
    QcView {
        block_hash: header.digest(),
        height: header.height,
        view,
        signers: Seq::new(votes.len(), |i: int| votes[i].validator),
        signatures: Seq::new(votes.len(), |i: int| votes[i].signature),
    }
}

/// The receipts that a committed round reports: those of validator 0.
pub open spec fn reported(validators: Seq<ValidatorView>, txs: Seq<TxView>) -> Seq<Receipt>
    decreases validators.len(),
{
    if validators.len() == 0 {
        Seq::empty()
    } else if validators.last().index == 0 {
        validators.last().state.receipts(txs)
    } else {
        reported(validators.drop_last(), txs)
    }
}

impl EngineView {
    /// Whether every validator stands at its own index, and there is one.
    pub open spec fn well_indexed(self) -> bool {
        &&& self.validators.len() > 0
        &&& forall|i: int|
            0 <= i < self.validators.len() ==> (#[trigger] self.validators[i]).index == i
    }

    /// Whether every validator can take a batch.
    pub open spec fn all_can_take(self, txs: Seq<TxView>) -> bool {
        forall|i: int|
            0 <= i < self.validators.len() ==> executor::can_take(
                (#[trigger] self.validators[i]).state,
                txs,
            )
    }

    /// Whether the engine has room for a round: there is a validator, and
    /// heights, views, nonces and fees stay within 64 bits.
    pub open spec fn has_room(self, txs: Seq<TxView>) -> bool {
        &&& self.validators.len() > 0
        &&& self.height < u64::MAX
        &&& self.view < u64::MAX
        &&& self.all_can_take(txs)
    }

    /// Whether the validators are honest, in one state that is meant for this
    /// network, and under a governor with the ledger's minter, and the batch
    /// respects the block limit and the issuance cap.
    pub open spec fn honest(self, txs: Seq<TxView>) -> bool {
        let s = self.validators[0].state;
        &&& self.well_indexed()
        &&& txs.len() <= MAX_BLOCK_TXS
        &&& s.chain_id == self.chain_id
        &&& s.well_keyed()
        &&& s.supply() + u64::MAX <= u128::MAX
        &&& forall|i: int|
            0 <= i < self.validators.len() ==> {
                let v = #[trigger] self.validators[i];
                &&& !v.byzantine
                &&& v.state == s
                &&& v.governor.minter == s.minter
                &&& state_laws::minted_by(s, txs) <= v.governor.max_mint_per_block
            }
    }

    /// Whether no vote of the round carries one of the rare signatures that
    /// strict verification refuses (see [`plain`]).
    pub open spec fn plainly_signed(self, txs: Seq<TxView>, timestamp_ms: u64) -> bool {
        let votes = self.votes(self.proposal(txs, timestamp_ms));
        forall|i: int| 0 <= i < votes.len() ==> plain(#[trigger] votes[i])
    }

    pub open spec fn quorum(self) -> nat {
        consensus::quorum_of(self.validators.len())
    }

    pub open spec fn keys(self) -> Seq<PublicKey> {
        Seq::new(self.validators.len(), |i: int| self.validators[i].key())
    }

    /// The proposer of the current view, round-robin.
    pub open spec fn proposer(self) -> int {
        self.view as int % self.validators.len() as int
    }

    /// The block that the current proposer builds. It commits to the roots of
    /// its own execution; a Byzantine proposer corrupts the state root.
    pub open spec fn proposal(self, txs: Seq<TxView>, timestamp_ms: u64) -> BlockView {
        let p = self.validators[self.proposer()];
        let root = p.state.apply_all(txs).root();
        BlockView {
            header: BlockHeader {
                chain_id: self.chain_id,
                height: (self.height + 1) as u64,
                parent: self.parent,
                tx_root: block::tx_root_of(txs),
                state_root: if p.byzantine {
                    corrupted(root)
                } else {
                    root
                },
                receipts_root: receipt::receipts_root_of(p.state.receipts(txs)),
                proposer: p.index,
                timestamp_ms,
            },
            transactions: txs,
        }
    }

    /// What all validators vote on a block.
    pub open spec fn votes(self, block: BlockView) -> Seq<Vote> {
        Seq::new(self.validators.len(), |i: int| self.validators[i].vote(block, self.view))
    }

    /// The engine after the votes of a round have been watched, and the view
    /// has advanced.
    pub open spec fn after_votes(self, votes: Seq<Vote>) -> EngineView {
        EngineView {
            view: (self.view + 1) as u64,
            evidence: gathered(self.seen, self.evidence, votes),
            seen: watched(self.seen, votes),
            ..self
        }
    }

    /// The engine after a block has been committed.
    pub open spec fn extended(self, block: BlockView, qc: QcView) -> EngineView {
        EngineView {
            validators: Seq::new(
                self.validators.len(),
                |i: int| self.validators[i].committed(block.transactions),
            ),
            height: block.header.height,
            parent: block.header.digest(),
            chain: self.chain.push((block, qc)),
            ..self
        }
    }

    /// The votes that count in a round.
    pub open spec fn ballot(self, txs: Seq<TxView>, timestamp_ms: u64) -> Seq<Vote> {
        admissible(self.votes(self.proposal(txs, timestamp_ms)), self.keys())
    }

    /// The outcome of a round.
    pub open spec fn outcome(self, txs: Seq<TxView>, timestamp_ms: u64) -> OutcomeView {
        let block = self.proposal(txs, timestamp_ms);
        let yes = approving(self.ballot(txs, timestamp_ms));
        if yes.len() < self.quorum() {
            OutcomeView::Rejected {
                proposer: block.header.proposer,
                approvals: yes.len(),
                needed: self.quorum(),
                txs,
            }
        } else {
            OutcomeView::Committed {
                block,
                qc: certificate(block.header, self.view, yes),
                receipts: reported(self.validators, txs),
            }
        }
    }

    /// Whether the certificate of the round verifies, if there is one. It
    /// does unless two of the counted votes claim the same validator, which no
    /// engine allows whose validators stand at their own index (see
    /// [`law_well_indexed_rounds_certify`]).
    pub open spec fn certifies(self, txs: Seq<TxView>, timestamp_ms: u64) -> bool {
        self.outcome(txs, timestamp_ms) matches OutcomeView::Committed { qc, .. } ==> qc.valid(
            self.keys(),
            self.quorum(),
        )
    }

    /// Whether the engine can run a round: it has room for it, and commits
    /// nothing without a valid certificate.
    pub open spec fn can_run(self, txs: Seq<TxView>, timestamp_ms: u64) -> bool {
        self.has_room(txs) && self.certifies(txs, timestamp_ms)
    }

    /// The engine after a round. A rejected proposal leaves states, height and
    /// chain as they were.
    pub open spec fn after_round(self, txs: Seq<TxView>, timestamp_ms: u64) -> EngineView {
        let voted = self.after_votes(self.ballot(txs, timestamp_ms));
        match self.outcome(txs, timestamp_ms) {
            OutcomeView::Committed { block, qc, .. } => voted.extended(block, qc),
            OutcomeView::Rejected { .. } => voted,
        }
    }
}

impl ConsensusEngine {
    /// All validators start from the same genesis state. The engine inherits
    /// the genesis network id. A chain with no validators has no quorum and no
    /// proposer.
    pub fn new(num_validators: u32, genesis: State) -> (e: ConsensusEngine)
        requires
            num_validators > 0,
        ensures
            e@ == (EngineView {
                validators: Seq::new(
                    num_validators as nat,
                    |i: int| ValidatorView::fresh(i as u32, genesis@),
                ),
                height: 0,
                parent: e@.parent,
                chain_id: genesis@.chain_id,
                view: 0,
                chain: Seq::empty(),
                evidence: Seq::empty(),
                seen: Map::empty(),
            }),
            e@.parent@ == Seq::new(32, |i: int| 0u8),
            e@.well_indexed(),
    {
        let chain_id: u64 = genesis.chain_id();
        let mut validators: Vec<Validator> = Vec::new();
        let mut i: u32 = 0;
        while i < num_validators
            invariant
                i <= num_validators,
                validators@.len() == i,
                forall|j: int|
                    0 <= j < i ==> (#[trigger] validators@[j])@ == ValidatorView::fresh(
                        j as u32,
                        genesis@,
                    ),
            decreases num_validators - i,
        {
            validators.push(Validator::new(i, genesis.clone()));
            i += 1;
        }
        let e = ConsensusEngine {
            validators,
            height: 0,
            parent: hash::Hash::zero(),
            chain_id,
            view: 0,
            chain: Vec::new(),
            slashing_evidence: Vec::new(),
            detector: EquivocationDetector::new(),
        };
        assert(e@.validators =~= Seq::new(
            num_validators as nat,
            |i: int| ValidatorView::fresh(i as u32, genesis@),
        ));
        assert(e@.chain =~= Seq::<(BlockView, QcView)>::empty());
        e
    }

    /// Quorum threshold: strictly more than 2/3 of validators.
    pub fn quorum(&self) -> (q: usize)
        ensures
            q == self@.quorum(),
    {
        let n: usize = self.validators.len();
        let third: usize = n / 3;
        // Twice a number over three, without the intermediate product.
        2 * third + (if n % 3 == 2 { 1 } else { 0 }) + 1
    }

    pub fn validator_keys(&self) -> (keys: Vec<PublicKey>)
        ensures
            keys@ == self@.keys(),
    {
        let mut keys: Vec<PublicKey> = Vec::new();
        let mut i: usize = 0;
        while i < self.validators.len()
            invariant
                i <= self.validators@.len(),
                keys@.len() == i,
                forall|j: int| 0 <= j < i ==> #[trigger] keys@[j] == self.validators@[j]@.key(),
            decreases self.validators@.len() - i,
        {
            keys.push(self.validators[i].public_key());
            i += 1;
        }
        assert(keys@ =~= self@.keys());
        keys
    }

    /// Index of the proposer for the current view: round-robin in the view
    /// number.
    pub fn proposer_index(&self) -> (i: usize)
        requires
            self@.validators.len() > 0,
        ensures
            i == self@.proposer(),
            i < self@.validators.len(),
    {
        (self.view % self.validators.len() as u64) as usize
    }

    /// Build a proposal for the next height from a transaction batch. The
    /// proposer executes the batch to compute the roots it commits to; a
    /// Byzantine proposer commits to a corrupted state root instead.
    pub fn propose(&self, txs: Vec<Transaction>, timestamp_ms: u64) -> (b: Block)
        requires
            self@.validators.len() > 0,
            self@.height < u64::MAX,
            executor::can_take(
                self@.validators[self@.proposer()].state,
                transaction::tx_views(txs@),
            ),
        ensures
            b@ == self@.proposal(transaction::tx_views(txs@), timestamp_ms),
    {
        let at: usize = self.proposer_index();
        let proposer: &Validator = &self.validators[at];
        assert(proposer@ == self@.validators[at as int]);
        let mut scratch = proposer.state.clone();
        let out = executor::execute(&mut scratch, txs.as_slice());
        let state_root = if proposer.byzantine {
            corrupt(out.state_root)
        } else {
            out.state_root
        };
        let tx_root = Block::compute_tx_root(txs.as_slice());
        let receipts_root = receipt::receipts_root(out.receipts.as_slice());
        Block {
            header: BlockHeader {
                chain_id: self.chain_id,
                height: self.height + 1,
                parent: self.parent,
                tx_root,
                state_root,
                receipts_root,
                proposer: proposer.index,
                timestamp_ms,
            },
            transactions: txs,
        }
    }

    /// Gather the votes on a block that carry a valid signature.
    fn collect_votes(&self, block: &Block, keys: &Vec<PublicKey>) -> (votes: Vec<Vote>)
        requires
            self@.all_can_take(block@.transactions),
        ensures
            votes@ == admissible(self@.votes(block@), keys@),
            keys@ == self@.keys() && self@.well_indexed() ==> forall|i: int|
                0 <= i < self@.validators.len() && plain(#[trigger] self@.votes(block@)[i])
                    ==> self@.votes(block@)[i].valid(keys@),
    {
        let ghost all = self@.votes(block@);
        let mut votes: Vec<Vote> = Vec::new();
        let mut i: usize = 0;
        assert(all.take(0) =~= Seq::<Vote>::empty());
        while i < self.validators.len()
            invariant
                i <= self.validators@.len(),
                all == self@.votes(block@),
                self@.all_can_take(block@.transactions),
                votes@ == admissible(all.take(i as int), keys@),
                keys@ == self@.keys() && self@.well_indexed() ==> forall|j: int|
                    0 <= j < i && plain(#[trigger] all[j]) ==> all[j].valid(keys@),
            decreases self.validators@.len() - i,
        {
            assert(self@.validators[i as int] == self.validators@[i as int]@);
            let vote = self.validators[i].vote(block, self.view);
            assert(all[i as int] == vote);
            proof {
                assert(all.take(i + 1).drop_last() =~= all.take(i as int));
                assert(all.take(i + 1).last() == vote);
            }
            if vote.verify(keys.as_slice()) {
                votes.push(vote);
            }
            i += 1;
        }
        assert(all.take(i as int) =~= all);
        votes
    }

    /// Feed the votes of a round to the detector.
    fn watch(&mut self, votes: &Vec<Vote>)
        ensures
            final(self)@ == (EngineView {
                evidence: gathered(old(self)@.seen, old(self)@.evidence, votes@),
                seen: watched(old(self)@.seen, votes@),
                ..old(self)@
            }),
    {
        let mut i: usize = 0;
        assert(votes@.take(0) =~= Seq::<Vote>::empty());
        while i < votes.len()
            invariant
                i <= votes@.len(),
                self@ == (EngineView {
                    evidence: gathered(old(self)@.seen, old(self)@.evidence, votes@.take(i as int)),
                    seen: watched(old(self)@.seen, votes@.take(i as int)),
                    ..old(self)@
                }),
            decreases votes@.len() - i,
        {
            proof {
                assert(votes@.take(i + 1).drop_last() =~= votes@.take(i as int));
            }
            if let Some(evidence) = self.detector.observe(votes[i]) {
                self.slashing_evidence.push(evidence);
            }
            i += 1;
        }
        assert(votes@.take(i as int) =~= votes@);
    }

    /// Apply a committed block on every validator; returns the receipts of
    /// validator 0.
    fn commit_all(&mut self, block: &Block) -> (receipts: Vec<Receipt>)
        requires
            old(self)@.all_can_take(block@.transactions),
        ensures
            final(self)@ == (EngineView {
                validators: Seq::new(
                    old(self)@.validators.len(),
                    |i: int| old(self)@.validators[i].committed(block@.transactions),
                ),
                ..old(self)@
            }),
            receipts@ == reported(old(self)@.validators, block@.transactions),
    {
        let ghost all = old(self)@.validators;
        assert(all.take(0) =~= Seq::<ValidatorView>::empty());
        let mut receipts: Vec<Receipt> = Vec::new();
        let mut i: usize = 0;
        while i < self.validators.len()
            invariant
                i <= self.validators@.len(),
                self.validators@.len() == old(self)@.validators.len(),
                all == old(self)@.validators,
                old(self)@.all_can_take(block@.transactions),
                forall|j: int|
                    0 <= j < i ==> (#[trigger] self.validators@[j])@ == old(
                        self,
                    )@.validators[j].committed(block@.transactions),
                forall|j: int|
                    i <= j < self.validators@.len() ==> (#[trigger] self.validators@[j])@ == old(
                        self,
                    )@.validators[j],
                self@ == (EngineView { validators: self@.validators, ..old(self)@ }),
                receipts@ == reported(all.take(i as int), block@.transactions),
            decreases self.validators@.len() - i,
        {
            let ghost before = self.validators@;
            assert(before[i as int]@ == old(self)@.validators[i as int]);
            assert(all.take(i + 1).drop_last() =~= all.take(i as int));
            let index: u32 = self.validators[i].index;
            let r = self.validators[i].commit(block);
            if index == 0 {
                receipts = r;
            }
            i += 1;
        }
        assert(all.take(i as int) =~= all);
        assert(self@.validators =~= Seq::new(
            old(self)@.validators.len(),
            |i: int| old(self)@.validators[i].committed(block@.transactions),
        ));
        receipts
    }

    /// The proposal of the current view, and the votes on it that count:
    /// forged or mismatched votes are discarded.
    fn poll(&self, txs: Vec<Transaction>, timestamp_ms: u64) -> (polled: (Block, Vec<Vote>))
        requires
            self@.has_room(transaction::tx_views(txs@)),
        ensures
            polled.0@ == self@.proposal(transaction::tx_views(txs@), timestamp_ms),
            polled.1@ == self@.ballot(transaction::tx_views(txs@), timestamp_ms),
            self@.well_indexed() && self@.plainly_signed(transaction::tx_views(txs@), timestamp_ms)
                ==> forall|i: int|
                0 <= i < self@.validators.len() ==> (#[trigger] self@.votes(polled.0@)[i]).valid(
                    self@.keys(),
                ),
    {
        let ghost views = transaction::tx_views(txs@);
        proof {
            assert(0 <= self@.proposer() < self@.validators.len()) by {
                let n = self@.validators.len() as int;
                vstd::arithmetic::div_mod::lemma_mod_bound(self@.view as int, n);
            }
            assert(executor::can_take(self@.validators[self@.proposer()].state, views));
        }
        let block = self.propose(txs, timestamp_ms);
        let keys = self.validator_keys();
        let votes = self.collect_votes(&block, &keys);
        (block, votes)
    }

    /// Run one round: propose, gather signed votes, verify them, build the
    /// quorum certificate, commit on quorum. What is committed has a valid
    /// certificate. On failure the view advances and the batch is returned for
    /// re-queuing. Every verified vote is fed to the equivocation detector, so
    /// a validator that double-signs is recorded in
    /// [`ConsensusEngine::slashing_evidence`]. Honest validators in agreement
    /// commit.
    pub fn run_round(&mut self, txs: Vec<Transaction>, timestamp_ms: u64) -> (outcome: RoundOutcome)
        requires
            old(self)@.can_run(transaction::tx_views(txs@), timestamp_ms),
        ensures
            outcome@ == old(self)@.outcome(transaction::tx_views(txs@), timestamp_ms),
            final(self)@ == old(self)@.after_round(transaction::tx_views(txs@), timestamp_ms),
            outcome@ matches OutcomeView::Committed { qc, .. } ==> qc.valid(
                old(self)@.keys(),
                old(self)@.quorum(),
            ),
            old(self)@.well_indexed() ==> final(self)@.well_indexed(),
            old(self)@.honest(transaction::tx_views(txs@)) && old(self)@.plainly_signed(
                transaction::tx_views(txs@),
                timestamp_ms,
            ) ==> outcome@ is Committed,
    {
        let ghost start = self@;
        let ghost views = transaction::tx_views(txs@);
        let view: u64 = self.view;
        let (block, votes) = self.poll(txs, timestamp_ms);
        proof {
            if start.honest(views) && start.plainly_signed(views, timestamp_ms) {
                assert forall|i: int| 0 <= i < start.validators.len() implies (
                #[trigger] start.validators[i]).vote(block@, start.view).valid(start.keys()) by {
                    assert(start.votes(block@)[i].valid(start.keys()));
                }
                lemma_honest_round(start, views, timestamp_ms);
            }
        }
        self.watch(&votes);
        let needed: usize = self.quorum();
        self.view = self.view + 1;
        assert(self@ =~= start.after_votes(start.ballot(views, timestamp_ms)));
        let qc = certify(&block.header, view, &votes);
        if qc.signers.len() < needed {
            return RoundOutcome::Rejected {
                proposer: block.header.proposer,
                approvals: qc.signers.len(),
                needed,
                txs: block.transactions,
            };
        }
        let receipts = self.commit_all(&block);
        self.height = block.header.height;
        self.parent = qc.block_hash;
        let ghost chain = self.chain@;
        let kept = (block.clone(), qc.clone());
        self.chain.push(kept);
        proof {
            assert(chain_views(self.chain@) =~= chain_views(chain).push((block@, qc@)));
            assert(self@ =~= start.after_round(views, timestamp_ms));
            if start.well_indexed() {
                assert forall|i: int| 0 <= i < self@.validators.len() implies (
                #[trigger] self@.validators[i]).index == i by {
                    assert(start.validators[i].index == i);
                }
            }
        }
        RoundOutcome::Committed { block: Box::new(block), qc, receipts }
    }

    /// Whether every validator can take a batch.
    fn all_can_take(&self, txs: &[Transaction]) -> (ok: bool)
        ensures
            ok == self@.all_can_take(transaction::tx_views(txs@)),
    {
        let mut i: usize = 0;
        while i < self.validators.len()
            invariant
                i <= self.validators@.len(),
                forall|j: int|
                    0 <= j < i ==> executor::can_take(
                        (#[trigger] self@.validators[j]).state,
                        transaction::tx_views(txs@),
                    ),
            decreases self.validators@.len() - i,
        {
            assert(self@.validators[i as int] == self.validators@[i as int]@);
            if !executor::can_execute(&self.validators[i].state, txs) {
                return false;
            }
            i += 1;
        }
        true
    }

    /// Whether the engine can run a round on a batch (see
    /// [`EngineView::can_run`]): the round is rehearsed up to its certificate,
    /// which must verify if there are enough votes for one.
    pub fn can_run(&self, txs: &Vec<Transaction>, timestamp_ms: u64) -> (ok: bool)
        ensures
            ok == self@.can_run(transaction::tx_views(txs@), timestamp_ms),
    {
        if self.validators.len() == 0 || self.height == u64::MAX || self.view == u64::MAX
            || !self.all_can_take(txs.as_slice()) {
            return false;
        }
        let (block, votes) = self.poll(block::clone_txs(txs), timestamp_ms);
        let qc = certify(&block.header, self.view, &votes);
        let needed: usize = self.quorum();
        qc.signers.len() < needed || qc.verify(self.validator_keys().as_slice(), needed)
    }

    /// Run one round if the engine can; otherwise leave it as it is and hand
    /// the batch back.
    pub fn try_run_round(&mut self, txs: Vec<Transaction>, timestamp_ms: u64) -> (r: Result<
        RoundOutcome,
        Vec<Transaction>,
    >)
        ensures
            match r {
                Ok(outcome) => {
                    &&& old(self)@.can_run(transaction::tx_views(txs@), timestamp_ms)
                    &&& outcome@ == old(self)@.outcome(transaction::tx_views(txs@), timestamp_ms)
                    &&& final(self)@ == old(self)@.after_round(
                        transaction::tx_views(txs@),
                        timestamp_ms,
                    )
                    &&& outcome@ matches OutcomeView::Committed { qc, .. } ==> qc.valid(
                        old(self)@.keys(),
                        old(self)@.quorum(),
                    )
                    &&& old(self)@.well_indexed() ==> final(self)@.well_indexed()
                    &&& old(self)@.honest(transaction::tx_views(txs@)) && old(self)@.plainly_signed(
                        transaction::tx_views(txs@),
                        timestamp_ms,
                    ) ==> outcome@ is Committed
                },
                Err(batch) => {
                    &&& !old(self)@.can_run(transaction::tx_views(txs@), timestamp_ms)
                    &&& batch == txs
                    &&& final(self)@ == old(self)@
                },
            },
    {
        if self.can_run(&txs, timestamp_ms) {
            Ok(self.run_round(txs, timestamp_ms))
        } else {
            Err(txs)
        }
    }

    /// Install a Cargo guard policy on every validator.
    pub fn set_governor(&mut self, governor: FigGovernor)
        ensures
            final(self)@ == (EngineView {
                validators: Seq::new(
                    old(self)@.validators.len(),
                    |i: int| ValidatorView { governor, ..old(self)@.validators[i] },
                ),
                ..old(self)@
            }),
    {
        let mut i: usize = 0;
        while i < self.validators.len()
            invariant
                i <= self.validators@.len(),
                self.validators@.len() == old(self)@.validators.len(),
                forall|j: int|
                    0 <= j < i ==> (#[trigger] self.validators@[j])@ == (ValidatorView {
                        governor,
                        ..old(self)@.validators[j]
                    }),
                forall|j: int|
                    i <= j < self.validators@.len() ==> (#[trigger] self.validators@[j])@ == old(
                        self,
                    )@.validators[j],
                self@ == (EngineView { validators: self@.validators, ..old(self)@ }),
            decreases self.validators@.len() - i,
        {
            assert(self.validators@[i as int]@ == old(self)@.validators[i as int]);
            self.validators[i].governor = governor;
            i += 1;
        }
        assert(self@.validators =~= Seq::new(
            old(self)@.validators.len(),
            |i: int| ValidatorView { governor, ..old(self)@.validators[i] },
        ));
    }

    /// Grant fig issuance authority to `minter` with a per-block `cap`,
    /// consistently across both enforcement layers: the base-ledger rule
    /// (`State::set_minter`, which makes mints from anyone else fail) and the
    /// Cargo guard's block audit (cap + supply conservation). Both layers move
    /// together so they never drift.
    pub fn set_issuance_authority(&mut self, minter: AccountId, cap: u64)
        ensures
            final(self)@ == (EngineView {
                validators: Seq::new(
                    old(self)@.validators.len(),
                    |i: int| authorized(old(self)@.validators[i], minter, cap),
                ),
                ..old(self)@
            }),
    {
        let mut i: usize = 0;
        while i < self.validators.len()
            invariant
                i <= self.validators@.len(),
                self.validators@.len() == old(self)@.validators.len(),
                forall|j: int|
                    0 <= j < i ==> (#[trigger] self.validators@[j])@ == authorized(
                        old(self)@.validators[j],
                        minter,
                        cap,
                    ),
                forall|j: int|
                    i <= j < self.validators@.len() ==> (#[trigger] self.validators@[j])@ == old(
                        self,
                    )@.validators[j],
                self@ == (EngineView { validators: self@.validators, ..old(self)@ }),
            decreases self.validators@.len() - i,
        {
            assert(self.validators@[i as int]@ == old(self)@.validators[i as int]);
            self.validators[i].state.set_minter(Some(minter));
            self.validators[i].governor = FigGovernor {
                minter: Some(minter),
                max_mint_per_block: cap,
            };
            i += 1;
        }
        assert(self@.validators =~= Seq::new(
            old(self)@.validators.len(),
            |i: int| authorized(old(self)@.validators[i], minter, cap),
        ));
    }

    /// Reference to validator 0's state (all honest validators agree).
    pub fn canonical_state(&self) -> (s: &State)
        requires
            self@.validators.len() > 0,
        ensures
            s@ == self@.validators[0].state,
    {
        assert(self.validators@[0]@ == self@.validators[0]);
        &self.validators[0].state
    }

    /// Feed a vote observed off the wire (e.g. gossiped by a peer) into the
    /// equivocation detector. If it conflicts with a vote the same validator
    /// already cast in that view, the returned evidence is also recorded in
    /// [`ConsensusEngine::slashing_evidence`]. This is how a double-signing
    /// validator is caught even when its second vote never reached quorum.
    pub fn observe_external_vote(&mut self, vote: Vote) -> (evidence: Option<SlashingEvidence>)
        ensures
            evidence == if vote.valid(old(self)@.keys()) {
                consensus::evidence_in(old(self)@.seen, vote)
            } else {
                None
            },
            final(self)@ == if vote.valid(old(self)@.keys()) {
                EngineView {
                    evidence: match evidence {
                        Some(e) => old(self)@.evidence.push(e),
                        None => old(self)@.evidence,
                    },
                    seen: consensus::after_seeing(old(self)@.seen, vote),
                    ..old(self)@
                }
            } else {
                old(self)@
            },
    {
        let keys = self.validator_keys();
        if !vote.verify(keys.as_slice()) {
            // Unsigned or forged: not admissible evidence.
            return None;
        }
        let evidence = self.detector.observe(vote);
        if let Some(e) = evidence {
            self.slashing_evidence.push(e);
        }
        evidence
    }
}

/// A validator under a new issuance authority.
pub open spec fn authorized(v: ValidatorView, minter: AccountId, cap: u64) -> ValidatorView {
    ValidatorView {
        state: StateView { minter: Some(minter), ..v.state },
        governor: FigGovernor { minter: Some(minter), max_mint_per_block: cap },
        ..v
    }
}

/// The certificate made of the approving votes.
fn certify(header: &BlockHeader, view: u64, votes: &Vec<Vote>) -> (qc: QuorumCertificate)
    ensures
        qc@ == certificate(*header, view, approving(votes@)),
{
    let (signers, signatures) = tally(votes);
    QuorumCertificate {
        block_hash: header.hash(),
        height: header.height,
        view,
        signers,
        signatures,
    }
}

/// The signers and signatures of the approving votes.
fn tally(votes: &Vec<Vote>) -> (r: (Vec<u32>, Vec<crypto::Signature>))
    ensures
        r.0@ == Seq::new(approving(votes@).len(), |i: int| approving(votes@)[i].validator),
        r.1@ == Seq::new(approving(votes@).len(), |i: int| approving(votes@)[i].signature),
{
    let mut signers: Vec<u32> = Vec::new();
    let mut signatures: Vec<crypto::Signature> = Vec::new();
    let mut i: usize = 0;
    assert(votes@.take(0) =~= Seq::<Vote>::empty());
    while i < votes.len()
        invariant
            i <= votes@.len(),
            signers@.len() == approving(votes@.take(i as int)).len(),
            signatures@.len() == signers@.len(),
            forall|j: int|
                0 <= j < signers@.len() ==> #[trigger] signers@[j] == approving(
                    votes@.take(i as int),
                )[j].validator,
            forall|j: int|
                0 <= j < signers@.len() ==> #[trigger] signatures@[j] == approving(
                    votes@.take(i as int),
                )[j].signature,
        decreases votes@.len() - i,
    {
        proof {
            assert(votes@.take(i + 1).drop_last() =~= votes@.take(i as int));
        }
        if votes[i].approve {
            signers.push(votes[i].validator);
            signatures.push(votes[i].signature);
        }
        i += 1;
    }
    assert(votes@.take(i as int) =~= votes@);
    assert(signers@ =~= Seq::new(approving(votes@).len(), |i: int| approving(votes@)[i].validator));
    assert(signatures@ =~= Seq::new(
        approving(votes@).len(),
        |i: int| approving(votes@)[i].signature,
    ));
    (signers, signatures)
}

/// The approving votes among those of the first `k` validators.
spec fn yes_upto(e: EngineView, block: BlockView, k: int) -> Seq<Vote> {
    approving(admissible(e.votes(block).take(k), e.keys()))
}

proof fn lemma_yes_step(e: EngineView, block: BlockView, k: int)
    requires
        0 <= k < e.validators.len(),
    ensures
        ({
            let vote = e.validators[k].vote(block, e.view);
            yes_upto(e, block, k + 1) == if vote.valid(e.keys()) && vote.approve {
                yes_upto(e, block, k).push(vote)
            } else {
                yes_upto(e, block, k)
            }
        }),
{
    let votes = e.votes(block);
    let before = admissible(votes.take(k), e.keys());
    let vote = e.validators[k].vote(block, e.view);
    assert(votes.take(k + 1).drop_last() =~= votes.take(k));
    assert(votes.take(k + 1).last() == vote);
    if vote.valid(e.keys()) {
        assert(before.push(vote).drop_last() =~= before);
    }
}

/// The votes that count are valid approvals of the block in this view, and no
/// validator counts twice.
proof fn lemma_yes_votes(e: EngineView, block: BlockView, k: int)
    requires
        e.well_indexed(),
        0 <= k <= e.validators.len(),
    ensures
        forall|i: int|
            0 <= i < yes_upto(e, block, k).len() ==> {
                let v = #[trigger] yes_upto(e, block, k)[i];
                &&& v.valid(e.keys())
                &&& v.approve
                &&& v.block_hash == block.header.digest()
                &&& v.height == block.header.height
                &&& v.view == e.view
                &&& v.validator < k
            },
        forall|i: int, j: int|
            0 <= i < j < yes_upto(e, block, k).len() ==> (#[trigger] yes_upto(
                e,
                block,
                k,
            )[i]).validator != (#[trigger] yes_upto(e, block, k)[j]).validator,
        yes_upto(e, block, k).len() <= k,
    decreases k,
{
    if k > 0 {
        lemma_yes_votes(e, block, k - 1);
        lemma_yes_step(e, block, k - 1);
        assert(e.validators[k - 1].index == k - 1);
    } else {
        assert(e.votes(block).take(0) =~= Seq::<Vote>::empty());
    }
}

/// Where every validator stands at its own index, the certificate of a
/// committed round verifies.
pub proof fn law_well_indexed_rounds_certify(
    e: EngineView,
    txs: Seq<TxView>,
    timestamp_ms: u64,
)
    requires
        e.well_indexed(),
    ensures
        e.certifies(txs, timestamp_ms),
{
    let block = e.proposal(txs, timestamp_ms);
    let n = e.validators.len() as int;
    assert(e.votes(block).take(n) =~= e.votes(block));
    lemma_yes_votes(e, block, n);
    let yes = approving(e.ballot(txs, timestamp_ms));
    assert(yes == yes_upto(e, block, n));
    let qc = certificate(block.header, e.view, yes);
    assert forall|i: int| 0 <= i < qc.signers.len() implies (#[trigger] qc.vote(i)).valid(
        e.keys(),
    ) by {
        assert(qc.vote(i) == yes[i]);
    }
    assert(qc.signers.no_duplicates()) by {
        assert forall|i: int, j: int| 0 <= i < j < qc.signers.len() implies qc.signers[i]
            != qc.signers[j] by {
            assert(yes[i].validator != yes[j].validator);
        }
    }
}

/// The hash that the next block must name as its parent.
pub open spec fn tip(chain: Seq<(BlockView, QcView)>, start: hash::Hash) -> hash::Hash {
    if chain.len() == 0 {
        start
    } else {
        chain.last().0.header.digest()
    }
}

/// Whether a block follows the chain, and its certificate is one for it.
#[verifier::opaque]
pub open spec fn follows(
    entry: (BlockView, QcView),
    parent: hash::Hash,
    keys: Seq<PublicKey>,
    quorum: nat,
) -> bool {
    &&& entry.0.header.parent == parent
    &&& entry.1.block_hash == entry.0.header.digest()
    &&& entry.1.valid(keys, quorum)
}

/// Whether a light client that knows the validators accepts the chain: every
/// block names the one before it as its parent (the first one names `start`)
/// and is certified by a quorum.
pub open spec fn certified(
    chain: Seq<(BlockView, QcView)>,
    start: hash::Hash,
    keys: Seq<PublicKey>,
    quorum: nat,
) -> bool
    decreases chain.len(),
{
    chain.len() == 0 || {
        &&& certified(chain.drop_last(), start, keys, quorum)
        &&& follows(chain.last(), tip(chain.drop_last(), start), keys, quorum)
    }
}

/// The beginning of a certified chain is certified.
proof fn lemma_certified_prefix(
    chain: Seq<(BlockView, QcView)>,
    start: hash::Hash,
    keys: Seq<PublicKey>,
    quorum: nat,
    i: int,
)
    requires
        0 <= i <= chain.len(),
        certified(chain, start, keys, quorum),
    ensures
        certified(chain.take(i), start, keys, quorum),
    decreases chain.len(),
{
    if i == chain.len() {
        assert(chain.take(i) =~= chain);
    } else {
        lemma_certified_prefix(chain.drop_last(), start, keys, quorum, i);
        assert(chain.drop_last().take(i) =~= chain.take(i));
    }
}

fn entry_follows(
    block: &Block,
    qc: &QuorumCertificate,
    parent: &hash::Hash,
    validator_keys: &[PublicKey],
    quorum: usize,
) -> (ok: bool)
    ensures
        ok == follows((block@, qc@), *parent, validator_keys@, quorum as nat),
{
    proof {
        reveal(follows);
    }
    let block_hash = block.header.hash();
    block.header.parent == *parent && qc.block_hash == block_hash && qc.verify(
        validator_keys,
        quorum,
    )
}

/// Light-client audit of a chain: parent links and quorum certificates.
pub fn verify_chain(
    chain: &[(Block, QuorumCertificate)],
    start: &hash::Hash,
    validator_keys: &[PublicKey],
    quorum: usize,
) -> (ok: bool)
    ensures
        ok == certified(chain_views(chain@), *start, validator_keys@, quorum as nat),
{
    let ghost views = chain_views(chain@);
    let mut parent: hash::Hash = *start;
    let mut i: usize = 0;
    while i < chain.len()
        invariant
            i <= chain@.len(),
            views == chain_views(chain@),
            parent == tip(views.take(i as int), *start),
            certified(views.take(i as int), *start, validator_keys@, quorum as nat),
        decreases chain@.len() - i,
    {
        let entry = &chain[i];
        let ghost more = views.take(i + 1);
        assert(more.drop_last() =~= views.take(i as int));
        assert(more.last() == (entry.0@, entry.1@));
        if !entry_follows(&entry.0, &entry.1, &parent, validator_keys, quorum) {
            proof {
                if certified(views, *start, validator_keys@, quorum as nat) {
                    lemma_certified_prefix(views, *start, validator_keys@, quorum as nat, i + 1);
                }
            }
            return false;
        }
        parent = entry.0.header.hash();
        i += 1;
    }
    assert(views.take(i as int) =~= views);
    true
}

/// Whether the engine's chain passes the light-client audit, and its head is
/// the chain's tip.
pub open spec fn auditable(e: EngineView, start: hash::Hash) -> bool {
    certified(e.chain, start, e.keys(), e.quorum()) && e.parent == tip(e.chain, start)
}

/// The committed chain always passes the light-client audit: a round, whatever
/// its outcome, keeps every parent link and every certificate in order.
pub proof fn law_committed_chains_verify(
    e: EngineView,
    txs: Seq<TxView>,
    timestamp_ms: u64,
    start: hash::Hash,
)
    requires
        e.well_indexed(),
        auditable(e, start),
    ensures
        e.after_round(txs, timestamp_ms).well_indexed(),
        auditable(e.after_round(txs, timestamp_ms), start),
{
    let after = e.after_round(txs, timestamp_ms);
    assert forall|i: int| 0 <= i < after.validators.len() implies (
    #[trigger] after.validators[i]).index == i by {
        assert(e.validators[i].index == i);
    }
    assert(after.keys() =~= e.keys());
    if e.outcome(txs, timestamp_ms) is Committed {
        law_well_indexed_rounds_certify(e, txs, timestamp_ms);
        assert(after.chain.drop_last() =~= e.chain);
        reveal(follows);
    }
}

/// Validators that start a round in the same state end it in the same state,
/// whatever the outcome.
pub proof fn law_validators_stay_in_agreement(
    e: EngineView,
    txs: Seq<TxView>,
    timestamp_ms: u64,
    i: int,
    j: int,
)
    requires
        0 <= i < e.validators.len(),
        0 <= j < e.validators.len(),
        e.validators[i].state == e.validators[j].state,
    ensures
        e.after_round(txs, timestamp_ms).validators[i].state == e.after_round(
            txs,
            timestamp_ms,
        ).validators[j].state,
{
}

/// A rejected round hands back the whole batch, and changes no state, height,
/// parent or chain; the next view has another proposer in turn.
pub proof fn law_rejection_loses_nothing(e: EngineView, txs: Seq<TxView>, timestamp_ms: u64)
    requires
        e.outcome(txs, timestamp_ms) is Rejected,
        e.view < u64::MAX,
    ensures
        e.outcome(txs, timestamp_ms)->Rejected_txs == txs,
        ({
            let after = e.after_round(txs, timestamp_ms);
            &&& after.validators == e.validators
            &&& after.height == e.height
            &&& after.parent == e.parent
            &&& after.chain == e.chain
            &&& after.view == e.view + 1
        }),
{
}

/// How many of the first `k` validators are Byzantine.
pub open spec fn byzantine_count(e: EngineView, k: int) -> nat
    decreases k,
{
    if k <= 0 {
        0
    } else {
        byzantine_count(e, k - 1) + if e.validators[k - 1].byzantine {
            1nat
        } else {
            0nat
        }
    }
}

proof fn lemma_only_byzantine_approve(e: EngineView, block: BlockView, k: int)
    requires
        0 <= k <= e.validators.len(),
        forall|i: int|
            0 <= i < e.validators.len() && !(#[trigger] e.validators[i]).byzantine
                ==> !e.validators[i].approves(block),
    ensures
        yes_upto(e, block, k).len() <= byzantine_count(e, k),
    decreases k,
{
    if k > 0 {
        lemma_only_byzantine_approve(e, block, k - 1);
        lemma_yes_step(e, block, k - 1);
    } else {
        assert(e.votes(block).take(0) =~= Seq::<Vote>::empty());
    }
}

/// A proposal that no honest validator approves is rejected, as long as the
/// Byzantine ones are no quorum by themselves. In particular a state root that
/// differs from the honest re-execution cannot be committed by them.
pub proof fn law_byzantine_minority_cannot_commit(
    e: EngineView,
    txs: Seq<TxView>,
    timestamp_ms: u64,
)
    requires
        byzantine_count(e, e.validators.len() as int) < e.quorum(),
        forall|i: int|
            0 <= i < e.validators.len() && !(#[trigger] e.validators[i]).byzantine ==> e.proposal(
                txs,
                timestamp_ms,
            ).header.state_root != e.validators[i].state.apply_all(txs).root(),
    ensures
        e.outcome(txs, timestamp_ms) is Rejected,
{
    let block = e.proposal(txs, timestamp_ms);
    let n = e.validators.len() as int;
    assert(e.votes(block).take(n) =~= e.votes(block));
    assert forall|i: int|
        0 <= i < e.validators.len() && !(
        #[trigger] e.validators[i]).byzantine implies !e.validators[i].approves(block) by {
        assert(block.header.state_root != e.validators[i].state.apply_all(txs).root());
    }
    lemma_only_byzantine_approve(e, block, n);
}

proof fn lemma_all_approve(e: EngineView, block: BlockView, k: int)
    requires
        0 <= k <= e.validators.len(),
        forall|i: int|
            0 <= i < e.validators.len() ==> (#[trigger] e.validators[i]).approves(block)
                && e.validators[i].vote(block, e.view).valid(e.keys()),
    ensures
        yes_upto(e, block, k).len() == k,
    decreases k,
{
    if k > 0 {
        lemma_all_approve(e, block, k - 1);
        lemma_yes_step(e, block, k - 1);
        assert(e.validators[k - 1].approves(block));
    } else {
        assert(e.votes(block).take(0) =~= Seq::<Vote>::empty());
    }
}

proof fn lemma_honest_round(e: EngineView, txs: Seq<TxView>, timestamp_ms: u64)
    requires
        e.honest(txs),
        forall|i: int|
            0 <= i < e.validators.len() ==> (#[trigger] e.validators[i]).vote(
                e.proposal(txs, timestamp_ms),
                e.view,
            ).valid(e.keys()),
    ensures
        e.outcome(txs, timestamp_ms) is Committed,
{
    let block = e.proposal(txs, timestamp_ms);
    let n = e.validators.len() as int;
    let s = e.validators[0].state;
    vstd::arithmetic::div_mod::lemma_mod_bound(e.view as int, n);
    assert(!e.validators[e.proposer()].byzantine);
    state_laws::law_block_supply(s, txs);
    receipt::lemma_fees_nonneg(s.receipts(txs));
    assert forall|i: int| 0 <= i < n implies (#[trigger] e.validators[i]).approves(block)
        && e.validators[i].vote(block, e.view).valid(e.keys()) by {
        let v = e.validators[i];
        crate::cargo::law_honest_blocks_pass(v.governor, v.state, txs);
    }
    assert(e.votes(block).take(n) =~= e.votes(block));
    lemma_all_approve(e, block, n);
    consensus::law_quorum_is_a_supermajority(e.validators.len());
}

proof fn lemma_reported(validators: Seq<ValidatorView>, txs: Seq<TxView>)
    requires
        validators.len() > 0,
        forall|i: int| 0 <= i < validators.len() ==> (#[trigger] validators[i]).index == i,
    ensures
        reported(validators, txs) == validators[0].state.receipts(txs),
    decreases validators.len(),
{
    let rest = validators.drop_last();
    assert(validators.last() == validators[validators.len() - 1]);
    if rest.len() > 0 {
        assert forall|i: int| 0 <= i < rest.len() implies (#[trigger] rest[i]).index == i by {
            assert(rest[i] == validators[i]);
        }
        lemma_reported(rest, txs);
    }
}

/// The receipts that a committed round hands out are those of executing the
/// batch on the canonical state.
pub proof fn law_receipts_are_canonical(e: EngineView, txs: Seq<TxView>, timestamp_ms: u64)
    requires
        e.well_indexed(),
        e.outcome(txs, timestamp_ms) is Committed,
    ensures
        e.outcome(txs, timestamp_ms)->Committed_receipts == e.validators[0].state.receipts(txs),
{
    lemma_reported(e.validators, txs);
}

/// Whether every vote seen belongs to a view that is over.
pub open spec fn only_past_views(e: EngineView) -> bool {
    forall|round: (u32, u64)| #[trigger] e.seen.contains_key(round) ==> round.1 < e.view
}

/// Whether the votes are cast in one view, by validators below `k`, one each.
spec fn one_vote_each(votes: Seq<Vote>, view: u64, k: int) -> bool {
    &&& forall|i: int|
        0 <= i < votes.len() ==> (#[trigger] votes[i]).view == view && votes[i].validator < k
    &&& forall|i: int, j: int|
        0 <= i < j < votes.len() ==> (#[trigger] votes[i]).validator != (
        #[trigger] votes[j]).validator
}

/// The votes that count among those of the first `k` validators are cast in
/// this view, one each.
proof fn lemma_one_vote_each(e: EngineView, block: BlockView, k: int)
    requires
        e.well_indexed(),
        0 <= k <= e.validators.len(),
    ensures
        one_vote_each(admissible(e.votes(block).take(k), e.keys()), e.view, k),
    decreases k,
{
    let votes = e.votes(block);
    if k > 0 {
        lemma_one_vote_each(e, block, k - 1);
        let before = admissible(votes.take(k - 1), e.keys());
        let vote = e.validators[k - 1].vote(block, e.view);
        assert(votes.take(k).drop_last() =~= votes.take(k - 1));
        assert(votes.take(k).last() == vote);
        assert(e.validators[k - 1].index == k - 1);
        assert(one_vote_each(before.push(vote), e.view, k));
        assert(one_vote_each(before, e.view, k));
    } else {
        assert(votes.take(0) =~= Seq::<Vote>::empty());
    }
}

/// Votes of one new view, one from each validator, give no evidence.
proof fn lemma_single_votes_are_clean(
    seen: Map<(u32, u64), Vote>,
    evidence: Seq<SlashingEvidence>,
    votes: Seq<Vote>,
    view: u64,
    k: int,
)
    requires
        forall|round: (u32, u64)| #[trigger] seen.contains_key(round) ==> round.1 < view,
        one_vote_each(votes, view, k),
    ensures
        gathered(seen, evidence, votes) == evidence,
        forall|round: (u32, u64)| #[trigger]
            watched(seen, votes).contains_key(round) ==> round.1 <= view && (round.1 == view
                ==> exists|i: int|
                0 <= i < votes.len() && (#[trigger] votes[i]).validator == round.0),
    decreases votes.len(),
{
    if votes.len() > 0 {
        let rest = votes.drop_last();
        let last = votes.last();
        lemma_single_votes_are_clean(seen, evidence, rest, view, k);
        let before = watched(seen, rest);
        if before.contains_key(consensus::round_of(last)) {
            let i = choose|i: int|
                0 <= i < rest.len() && (#[trigger] rest[i]).validator == last.validator;
            assert(votes[i].validator == votes[votes.len() - 1].validator);
        }
        assert forall|round: (u32, u64)| #[trigger]
            watched(seen, votes).contains_key(round) implies round.1 <= view && (round.1 == view
            ==> exists|i: int|
            0 <= i < votes.len() && (#[trigger] votes[i]).validator == round.0) by {
            if round == consensus::round_of(last) {
                assert(votes[votes.len() - 1].validator == round.0);
            } else {
                assert(before.contains_key(round));
                if round.1 == view {
                    let i = choose|i: int|
                        0 <= i < rest.len() && (#[trigger] rest[i]).validator == round.0;
                    assert(votes[i].validator == round.0);
                }
            }
        }
    }
}

/// Running rounds accuses nobody: a validator votes once per view, whatever it
/// votes, so a round adds no evidence. Only votes from outside can.
pub proof fn law_rounds_accuse_nobody(e: EngineView, txs: Seq<TxView>, timestamp_ms: u64)
    requires
        e.well_indexed(),
        e.view < u64::MAX,
        only_past_views(e),
    ensures
        e.after_round(txs, timestamp_ms).evidence == e.evidence,
        only_past_views(e.after_round(txs, timestamp_ms)),
{
    let block = e.proposal(txs, timestamp_ms);
    let n = e.validators.len() as int;
    assert(e.votes(block).take(n) =~= e.votes(block));
    lemma_one_vote_each(e, block, n);
    lemma_single_votes_are_clean(e.seen, e.evidence, e.ballot(txs, timestamp_ms), e.view, n);
}

/// Whether all recorded evidence verifies, and all votes seen are genuine.
pub open spec fn record_is_sound(e: EngineView) -> bool {
    &&& consensus::all_genuine(e.seen, e.keys())
    &&& forall|i: int| 0 <= i < e.evidence.len() ==> (#[trigger] e.evidence[i]).valid(e.keys())
}

proof fn lemma_admissible_valid(votes: Seq<Vote>, keys: Seq<PublicKey>)
    ensures
        forall|i: int|
            0 <= i < admissible(votes, keys).len() ==> (#[trigger] admissible(
                votes,
                keys,
            )[i]).valid(keys),
    decreases votes.len(),
{
    if votes.len() > 0 {
        lemma_admissible_valid(votes.drop_last(), keys);
        let before = admissible(votes.drop_last(), keys);
        let all = admissible(votes, keys);
        assert forall|i: int| 0 <= i < all.len() implies (#[trigger] all[i]).valid(keys) by {
            if i < before.len() {
                assert(all[i] == before[i]);
            }
        }
    }
}

proof fn lemma_watching_is_sound(
    seen: Map<(u32, u64), Vote>,
    evidence: Seq<SlashingEvidence>,
    votes: Seq<Vote>,
    keys: Seq<PublicKey>,
)
    requires
        consensus::all_genuine(seen, keys),
        forall|i: int| 0 <= i < evidence.len() ==> (#[trigger] evidence[i]).valid(keys),
        forall|i: int| 0 <= i < votes.len() ==> (#[trigger] votes[i]).valid(keys),
    ensures
        consensus::all_genuine(watched(seen, votes), keys),
        forall|i: int|
            0 <= i < gathered(seen, evidence, votes).len() ==> (#[trigger] gathered(
                seen,
                evidence,
                votes,
            )[i]).valid(keys),
    decreases votes.len(),
{
    if votes.len() > 0 {
        let rest = votes.drop_last();
        assert forall|i: int| 0 <= i < rest.len() implies (#[trigger] rest[i]).valid(keys) by {
            assert(votes[i].valid(keys));
        }
        lemma_watching_is_sound(seen, evidence, rest, keys);
        assert(votes[votes.len() - 1].valid(keys));
        consensus::law_evidence_verifies(keys, watched(seen, rest), votes.last());
        let before = gathered(seen, evidence, rest);
        let all = gathered(seen, evidence, votes);
        assert forall|i: int| 0 <= i < all.len() implies (#[trigger] all[i]).valid(keys) by {
            if i < before.len() {
                assert(all[i] == before[i]);
            }
        }
    }
}

/// All evidence that an engine records verifies against its validators: it
/// does at first, when there is none, and every round and every vote from
/// outside keeps it so.
pub proof fn law_recorded_evidence_verifies(
    e: EngineView,
    txs: Seq<TxView>,
    timestamp_ms: u64,
    vote: Vote,
)
    requires
        record_is_sound(e),
    ensures
        record_is_sound(e.after_round(txs, timestamp_ms)),
        vote.valid(e.keys()) ==> {
            &&& consensus::all_genuine(consensus::after_seeing(e.seen, vote), e.keys())
            &&& consensus::evidence_in(e.seen, vote) matches Some(x) ==> x.valid(e.keys())
        },
{
    let ballot = e.ballot(txs, timestamp_ms);
    lemma_admissible_valid(e.votes(e.proposal(txs, timestamp_ms)), e.keys());
    lemma_watching_is_sound(e.seen, e.evidence, ballot, e.keys());
    assert(e.after_round(txs, timestamp_ms).keys() =~= e.keys());
    if vote.valid(e.keys()) {
        consensus::law_evidence_verifies(e.keys(), e.seen, vote);
    }
}

/// A Byzantine proposer does not commit to the state it computed.
pub proof fn law_corruption_changes_the_root(h: hash::Hash, g: hash::Hash)
    requires
        g@ == h@.update(0, h@[0] ^ 0xffu8),
    ensures
        corrupted(h) == g,
        corrupted(h) != h,
{
    lemma_corrupted_differs(h, g);
    hash::lemma_hash_ext(corrupted(h), g);
}

/// What an honest vote vouches for: it approves a block exactly if the block is
/// for this network and within the size limit, its transaction root is the Merkle
/// root of the ids of its own transactions, its state root and receipts root are
/// those of running them here, and the audit of that run passes.
pub proof fn law_honest_votes_check_every_commitment(
    v: ValidatorView,
    block: BlockView,
    view: u64,
)
    requires
        !v.byzantine,
    ensures
        v.vote(block, view).approve <==> {
            let txs = block.transactions;
            let ids = Seq::new(txs.len(), |i: int| txs[i].id());
            let receipts = v.state.receipts(txs);
            let digests = Seq::new(receipts.len(), |i: int| receipts[i].digest());
            &&& block.header.chain_id == v.state.chain_id
            &&& txs.len() <= 10_000
            &&& block.header.tx_root == merkle::root_of(ids)
            &&& block.header.state_root == v.state.apply_all(txs).root()
            &&& block.header.receipts_root == merkle::root_of(digests)
            &&& v.governor.audit(
                v.state.supply() as u128,
                v.state.apply_all(txs).supply() as u128,
                txs,
                receipts,
            ) is Ok
        },
{
    let txs = block.transactions;
    let receipts = v.state.receipts(txs);
    assert(block::tx_ids(txs) =~= Seq::new(txs.len(), |i: int| txs[i].id()));
    assert(receipt::receipt_digests(receipts) =~= Seq::new(
        receipts.len(),
        |i: int| receipts[i].digest(),
    ));
}

/// An honest validator approves at most one set of commitments for a batch: two
/// blocks with the same transactions that it approves agree on every root.
pub proof fn law_one_set_of_roots_per_batch(
    v: ValidatorView,
    a: BlockView,
    b: BlockView,
    view: u64,
)
    requires
        !v.byzantine,
        a.transactions == b.transactions,
        v.vote(a, view).approve,
        v.vote(b, view).approve,
    ensures
        a.header.tx_root == b.header.tx_root,
        a.header.state_root == b.header.state_root,
        a.header.receipts_root == b.header.receipts_root,
        a.header.chain_id == b.header.chain_id,
{
}

/// A vote is cast by its validator, on this block at its height, in this view.
/// A Byzantine validator approves whatever it is shown.
pub proof fn law_votes_say_who_and_what(v: ValidatorView, block: BlockView, view: u64)
    ensures
        ({
            let vote = v.vote(block, view);
            &&& vote.validator == v.index
            &&& vote.block_hash == block.header.digest()
            &&& vote.height == block.header.height
            &&& vote.view == view
            &&& v.byzantine ==> vote.approve
            &&& vote.signature == crypto::signature_of(
                v.seed,
                consensus::vote_digest(
                    block.header.digest(),
                    block.header.height,
                    view,
                    vote.approve,
                )@,
            )
        }),
{
}

/// The proposer of a view is the one whose turn it is, and its block continues
/// the chain: the next height, the last block as parent, exactly the batch, and
/// the commitments of running it on its own state.
pub proof fn law_proposals_continue_the_chain(
    e: EngineView,
    txs: Seq<TxView>,
    timestamp_ms: u64,
)
    requires
        e.validators.len() > 0,
        e.height < u64::MAX,
    ensures
        ({
            let p = e.validators[e.view as int % e.validators.len() as int];
            let block = e.proposal(txs, timestamp_ms);
            let ids = Seq::new(txs.len(), |i: int| txs[i].id());
            &&& block.transactions == txs
            &&& block.header.chain_id == e.chain_id
            &&& block.header.height == e.height + 1
            &&& block.header.parent == e.parent
            &&& block.header.timestamp_ms == timestamp_ms
            &&& block.header.proposer == p.index
            &&& block.header.tx_root == merkle::root_of(ids)
            &&& block.header.receipts_root == receipt::receipts_root_of(p.state.receipts(txs))
            &&& !p.byzantine ==> block.header.state_root == p.state.apply_all(txs).root()
        }),
{
    assert(block::tx_ids(txs) =~= Seq::new(txs.len(), |i: int| txs[i].id()));
}

/// The turns go round: the validators propose one after the other.
pub proof fn law_turns_go_round(e: EngineView, f: EngineView)
    requires
        e.validators.len() > 0,
        f.validators.len() == e.validators.len(),
        f.view == e.view + 1,
    ensures
        0 <= e.proposer() < e.validators.len(),
        f.proposer() == (if e.proposer() + 1 == e.validators.len() {
            0
        } else {
            e.proposer() + 1
        }),
{
    let n = e.validators.len() as int;
    let v = e.view as int;
    vstd::arithmetic::div_mod::lemma_mod_bound(v, n);
    vstd::arithmetic::div_mod::lemma_fundamental_div_mod(v, n);
    if v % n + 1 == n {
        assert(n * (v / n) + n == n * (v / n + 1)) by (nonlinear_arith);
        vstd::arithmetic::div_mod::lemma_fundamental_div_mod_converse(v + 1, n, v / n + 1, 0);
    } else {
        vstd::arithmetic::div_mod::lemma_fundamental_div_mod_converse(
            v + 1,
            n,
            v / n,
            v % n + 1,
        );
    }
}

/// The places of the first validators whose vote on a block counts: it approves,
/// and its signature is that of the validator it names.
pub open spec fn approvers(e: EngineView, block: BlockView, k: int) -> Set<int> {
    Set::new(
        |i: int|
            {
                let vote = e.validators[i].vote(block, e.view);
                0 <= i < k && vote.approve && vote.valid(e.keys())
            },
    )
}

proof fn lemma_approvers(e: EngineView, block: BlockView, k: int)
    requires
        0 <= k <= e.validators.len(),
    ensures
        approvers(e, block, k).finite(),
        approvers(e, block, k).len() == yes_upto(e, block, k).len(),
    decreases k,
{
    if k > 0 {
        lemma_approvers(e, block, k - 1);
        lemma_yes_step(e, block, k - 1);
        let vote = e.validators[k - 1].vote(block, e.view);
        if vote.approve && vote.valid(e.keys()) {
            assert(approvers(e, block, k) =~= approvers(e, block, k - 1).insert(k - 1));
        } else {
            assert(approvers(e, block, k) =~= approvers(e, block, k - 1));
        }
    } else {
        assert(approvers(e, block, k) =~= Set::<int>::empty());
        assert(e.votes(block).take(0) =~= Seq::<Vote>::empty());
    }
}

/// A round commits exactly if more than two thirds of the validators cast a
/// genuine approving vote.
pub proof fn law_supermajorities_commit(e: EngineView, txs: Seq<TxView>, timestamp_ms: u64)
    ensures
        ({
            let block = e.proposal(txs, timestamp_ms);
            let n = e.validators.len();
            let yes = approvers(e, block, n as int).len();
            &&& e.outcome(txs, timestamp_ms) is Committed <==> 3 * yes > 2 * n
            &&& e.outcome(txs, timestamp_ms) matches OutcomeView::Rejected {
                proposer,
                approvals,
                needed,
                txs: back,
            } ==> approvals == yes && needed == e.quorum() && back == txs && proposer
                == block.header.proposer
            &&& e.outcome(txs, timestamp_ms) matches OutcomeView::Committed { qc, .. } ==> {
                &&& qc.signers.len() == yes
                &&& qc.block_hash == block.header.digest()
                &&& qc.height == block.header.height
                &&& qc.view == e.view
            }
        }),
{
    let block = e.proposal(txs, timestamp_ms);
    let n = e.validators.len() as int;
    lemma_approvers(e, block, n);
    assert(e.votes(block).take(n) =~= e.votes(block));
    consensus::law_quorum_is_the_least_supermajority(
        e.validators.len(),
        approvers(e, block, n).len(),
    );
}

/// What a commit does: the block that was proposed joins the chain with its
/// certificate and becomes the head, every validator runs it, and the view
/// advances. Nobody's identity, key, honesty or policy changes.
pub proof fn law_commits_extend_the_chain(
    e: EngineView,
    txs: Seq<TxView>,
    timestamp_ms: u64,
    i: int,
)
    requires
        e.outcome(txs, timestamp_ms) is Committed,
        e.height < u64::MAX,
        e.view < u64::MAX,
        0 <= i < e.validators.len(),
    ensures
        ({
            let after = e.after_round(txs, timestamp_ms);
            let block = e.outcome(txs, timestamp_ms)->Committed_block;
            let qc = e.outcome(txs, timestamp_ms)->Committed_qc;
            &&& block == e.proposal(txs, timestamp_ms)
            &&& after.height == e.height + 1
            &&& after.view == e.view + 1
            &&& after.parent == block.header.digest()
            &&& after.chain == e.chain.push((block, qc))
            &&& after.chain_id == e.chain_id
            &&& after.validators.len() == e.validators.len()
            &&& after.validators[i].state == e.validators[i].state.apply_all(txs)
            &&& after.validators[i].index == e.validators[i].index
            &&& after.validators[i].byzantine == e.validators[i].byzantine
            &&& after.validators[i].governor == e.validators[i].governor
            &&& after.validators[i].seed == e.validators[i].seed
        }),
{
}

/// Granting issuance makes the account the minter of the ledger and of the
/// guard, under the cap, and changes nothing else of a validator.
pub proof fn law_grants_reach_ledger_and_guard(v: ValidatorView, minter: AccountId, cap: u64)
    ensures
        ({
            let after = authorized(v, minter, cap);
            &&& after.state.minter == Some(minter)
            &&& after.governor.minter == Some(minter)
            &&& after.governor.max_mint_per_block == cap
            &&& after.state.accounts == v.state.accounts
            &&& after.state.chain_id == v.state.chain_id
            &&& after.state.base_fee == v.state.base_fee
            &&& after.index == v.index && after.byzantine == v.byzantine && after.seed == v.seed
        }),
{
}

/// A fresh validator is honest, starts from the genesis state under its index,
/// and lets nobody mint.
pub proof fn law_fresh_validators_allow_no_issuance(index: u32, genesis: StateView)
    ensures
        ({
            let v = ValidatorView::fresh(index, genesis);
            &&& v.index == index && v.state == genesis && !v.byzantine
            &&& v.governor.minter is None && v.governor.max_mint_per_block == 0
        }),
{
}

/// Whether the `i`-th block of a chain names the one before it as its parent (the
/// first one names `start`) and comes with a certificate for itself that a quorum
/// signed.
pub open spec fn linked(
    chain: Seq<(BlockView, QcView)>,
    start: hash::Hash,
    keys: Seq<PublicKey>,
    quorum: nat,
    i: int,
) -> bool {
    &&& chain[i].0.header.parent == (if i == 0 {
        start
    } else {
        chain[i - 1].0.header.digest()
    })
    &&& chain[i].1.block_hash == chain[i].0.header.digest()
    &&& chain[i].1.valid(keys, quorum)
}

/// A chain verifies exactly if each of its blocks is linked and certified.
pub proof fn law_verified_chains_are_linked(
    chain: Seq<(BlockView, QcView)>,
    start: hash::Hash,
    keys: Seq<PublicKey>,
    quorum: nat,
)
    ensures
        certified(chain, start, keys, quorum) <==> forall|i: int|
            0 <= i < chain.len() ==> #[trigger] linked(chain, start, keys, quorum, i),
    decreases chain.len(),
{
    if chain.len() > 0 {
        let rest = chain.drop_last();
        let last = chain.len() - 1;
        law_verified_chains_are_linked(rest, start, keys, quorum);
        assert forall|i: int| 0 <= i < last implies #[trigger] linked(chain, start, keys, quorum, i)
            == linked(rest, start, keys, quorum, i) by {
            assert(rest[i] == chain[i]);
            if i > 0 {
                assert(rest[i - 1] == chain[i - 1]);
            }
        }
        assert(follows(chain.last(), tip(rest, start), keys, quorum) == linked(
            chain,
            start,
            keys,
            quorum,
            last,
        )) by {
            reveal(follows);
            assert(chain.last() == chain[last]);
            if last > 0 {
                assert(rest.last() == chain[last - 1]);
            }
        }
        if certified(chain, start, keys, quorum) {
            assert forall|i: int| 0 <= i < chain.len() implies #[trigger] linked(
                chain,
                start,
                keys,
                quorum,
                i,
            ) by {
                if i < last {
                    assert(linked(rest, start, keys, quorum, i));
                }
            }
        }
        if forall|i: int|
            0 <= i < chain.len() ==> #[trigger] linked(chain, start, keys, quorum, i) {
            assert forall|i: int| 0 <= i < rest.len() implies #[trigger] linked(
                rest,
                start,
                keys,
                quorum,
                i,
            ) by {
                assert(linked(chain, start, keys, quorum, i));
            }
            assert(linked(chain, start, keys, quorum, last));
        }
    }
}

/// A validator that has voted in a view and votes there again, for another block
/// or with another approval, is recorded: the evidence grows by one that names
/// it.
pub proof fn law_conflicting_votes_are_recorded(
    seen: Map<(u32, u64), Vote>,
    evidence: Seq<SlashingEvidence>,
    votes: Seq<Vote>,
    i: int,
)
    requires
        0 <= i < votes.len(),
        seen.contains_key((votes[i].validator, votes[i].view)),
        ({
            let first = seen[(votes[i].validator, votes[i].view)];
            first.block_hash != votes[i].block_hash || first.approve != votes[i].approve
        }),
    ensures
        exists|k: int|
            evidence.len() <= k < gathered(seen, evidence, votes).len() && (#[trigger] gathered(
                seen,
                evidence,
                votes,
            )[k]).validator == votes[i].validator && gathered(seen, evidence, votes)[k].view
                == votes[i].view && gathered(seen, evidence, votes)[k].vote_b == votes[i],
        gathered(seen, evidence, votes).take(evidence.len() as int) == evidence,
    decreases votes.len(),
{
    let rest = votes.drop_last();
    let before = gathered(seen, evidence, rest);
    let after = gathered(seen, evidence, votes);
    let round = (votes[i].validator, votes[i].view);
    lemma_gathered_grows(seen, evidence, rest);
    lemma_gathered_grows(seen, evidence, votes);
    lemma_first_votes_stay(seen, rest, round);
    if i < votes.len() - 1 {
        assert(rest[i] == votes[i]);
        law_conflicting_votes_are_recorded(seen, evidence, rest, i);
        let k = choose|k: int|
            evidence.len() <= k < before.len() && (#[trigger] before[k]).validator
                == rest[i].validator && before[k].view == rest[i].view && before[k].vote_b
                == rest[i];
        assert(after[k] == before[k]);
    } else {
        assert(after[before.len() as int].vote_b == votes[i]);
    }
}

proof fn lemma_gathered_grows(
    seen: Map<(u32, u64), Vote>,
    evidence: Seq<SlashingEvidence>,
    votes: Seq<Vote>,
)
    ensures
        gathered(seen, evidence, votes).len() >= evidence.len(),
        gathered(seen, evidence, votes).take(evidence.len() as int) == evidence,
    decreases votes.len(),
{
    let after = gathered(seen, evidence, votes);
    if votes.len() > 0 {
        lemma_gathered_grows(seen, evidence, votes.drop_last());
        let before = gathered(seen, evidence, votes.drop_last());
        assert(after.take(evidence.len() as int) =~= before.take(evidence.len() as int));
    } else {
        assert(after.take(evidence.len() as int) =~= evidence);
    }
}

proof fn lemma_first_votes_stay(
    seen: Map<(u32, u64), Vote>,
    votes: Seq<Vote>,
    round: (u32, u64),
)
    requires
        seen.contains_key(round),
    ensures
        watched(seen, votes).contains_key(round),
        watched(seen, votes)[round] == seen[round],
    decreases votes.len(),
{
    if votes.len() > 0 {
        lemma_first_votes_stay(seen, votes.drop_last(), round);
    }
}

/// An engine whose validators stand at their own index can run every batch that
/// they can take, as long as there is another height and another view.
pub proof fn law_sound_engines_can_run(e: EngineView, txs: Seq<TxView>, timestamp_ms: u64)
    requires
        e.well_indexed(),
        e.height < u64::MAX,
        e.view < u64::MAX,
        forall|i: int|
            0 <= i < e.validators.len() ==> executor::can_take(
                (#[trigger] e.validators[i]).state,
                txs,
            ),
    ensures
        e.can_run(txs, timestamp_ms),
{
    law_well_indexed_rounds_certify(e, txs, timestamp_ms);
}

/// Every validator of a simulation has a key seed of its own, unless the hash
/// inputs collide.
pub proof fn law_validators_have_their_own_seeds(i: u32, j: u32, genesis: StateView)
    requires
        ValidatorView::fresh(i, genesis).seed == ValidatorView::fresh(j, genesis).seed,
    ensures
        i == j || hash::collide(
            text::utf8("phi:keyseed"@) + text::utf8(validator_label(i)),
            text::utf8("phi:keyseed"@) + text::utf8(validator_label(j)),
        ),
{
    crypto::law_labels_have_their_own_seeds(validator_label(i), validator_label(j));
    if validator_label(i) == validator_label(j) {
        let head = "phi:validator:"@;
        bytes::lemma_concat_cancel(
            head,
            text::decimal(i as nat),
            head,
            text::decimal(j as nat),
        );
        text::law_decimals_read_back(i as nat);
        text::law_decimals_read_back(j as nat);
    }
}

/// The keys of an engine are those of its validators, in order.
pub proof fn law_keys_are_the_validators_own(e: EngineView, i: int)
    requires
        0 <= i < e.validators.len(),
    ensures
        e.keys().len() == e.validators.len(),
        e.keys()[i] == crypto::public_key_of(e.validators[i].seed),
{
}

} // verus!
