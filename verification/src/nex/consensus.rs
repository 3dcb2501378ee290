//! Round-robin proposer with explicit voting by more than two thirds.
//!
//! This models the *shape* of BFT consensus (propose, vote, quorum, commit).
//! There is no networking, cryptographic signing or view change: validators
//! are honest simulation actors that re-execute proposals and refuse to vote
//! for incorrect state roots.

use vstd::prelude::*;

use crate::consensus;
use crate::hash;
use crate::merkle;
use crate::nex::block;
use crate::nex::block::{Block, BlockHeader, BlockView};
use crate::nex::state::{State, StateView};
use crate::nex::transaction;
use crate::nex::transaction::{Transaction, TxView};

verus! {

/// A validator's vote on a proposed block.
#[derive(Clone, Copy, Debug, PartialEq, Eq)]
pub struct Vote {
    pub validator: u32,
    pub block_hash: hash::Hash,
    pub approve: bool,
}

/// Result of running one consensus round.
#[derive(Debug)]
pub enum RoundOutcome {
    /// Quorum (more than 2/3) approved; block is committed.
    Committed(Block),
    /// Not enough approving votes; proposal is discarded.
    Rejected { approvals: usize, needed: usize },
}

/// The contents of a [`RoundOutcome`].
#[verifier::ext_equal]
pub enum OutcomeView {
    Committed(BlockView),
    Rejected { approvals: nat, needed: nat },
}

impl View for RoundOutcome {
    type V = OutcomeView;

    open spec fn view(&self) -> OutcomeView {
        match self {
            RoundOutcome::Committed(block) => OutcomeView::Committed(block@),
            RoundOutcome::Rejected { approvals, needed } => OutcomeView::Rejected {
                approvals: *approvals as nat,
                needed: *needed as nat,
            },
        }
    }
}

/// One simulated validator: each keeps an independent copy of state and only
/// votes for proposals whose declared state root matches its own execution.
pub struct Validator {
    pub index: u32,
    pub state: State,
}

/// The contents of a [`Validator`].
#[verifier::ext_equal]
pub struct ValidatorView {
    pub index: u32,
    pub state: StateView,
}

impl View for Validator {
    type V = ValidatorView;

    open spec fn view(&self) -> ValidatorView {
        ValidatorView { index: self.index, state: self.state@ }
    }
}

impl ValidatorView {
    /// Whether the block's commitments match the validator's own execution.
    pub open spec fn approves(self, block: BlockView) -> bool {
        &&& block.header.tx_root == block::tx_root_of(block.transactions)
        &&& block.header.state_root == self.state.apply_all(block.transactions).root()
    }

    /// The validator after a block has been applied.
    pub open spec fn committed(self, txs: Seq<TxView>) -> ValidatorView {
        ValidatorView { state: self.state.apply_all(txs), ..self }
    }
}

impl Validator {
    pub fn new(index: u32, genesis: State) -> (v: Validator)
        ensures
            v@ == (ValidatorView { index, state: genesis@ }),
    {
        Validator { index, state: genesis }
    }

    /// Verify a proposal by re-executing it on a copy of local state.
    pub fn vote(&self, block: &Block) -> (vote: Vote)
        requires
            self@.state.nonces_left(block@.transactions),
        ensures
            vote == (Vote {
                validator: self@.index,
                block_hash: block@.header.digest(),
                approve: self@.approves(block@),
            }),
    {
        let tx_root_ok: bool = Block::compute_tx_root(block.transactions.as_slice())
            == block.header.tx_root;
        let mut scratch = self.state.clone();
        scratch.apply_block(block);
        let state_root_ok: bool = scratch.root() == block.header.state_root;
        Vote {
            validator: self.index,
            block_hash: block.header.hash(),
            approve: tx_root_ok && state_root_ok,
        }
    }

    /// Apply a committed block to local state.
    pub fn commit(&mut self, block: &Block)
        requires
            old(self)@.state.nonces_left(block@.transactions),
        ensures
            final(self)@ == old(self)@.committed(block@.transactions),
    {
        self.state.apply_block(block);
    }
}

/// The contents of a validator set.
pub open spec fn validator_views(validators: Seq<Validator>) -> Seq<ValidatorView> {
    Seq::new(validators.len(), |i: int| validators[i]@)
}

/// Round-robin BFT-shaped consensus over a set of simulated validators.
pub struct ConsensusEngine {
    pub validators: Vec<Validator>,
    pub height: u64,
    pub parent: hash::Hash,
}

/// The contents of a [`ConsensusEngine`].
#[verifier::ext_equal]
pub struct EngineView {
    pub validators: Seq<ValidatorView>,
    pub height: u64,
    pub parent: hash::Hash,
}

impl View for ConsensusEngine {
    type V = EngineView;

    open spec fn view(&self) -> EngineView {
        EngineView {
            validators: validator_views(self.validators@),
            height: self.height,
            parent: self.parent,
        }
    }
}

/// How many of the validators approve a block.
pub open spec fn approvals(validators: Seq<ValidatorView>, block: BlockView) -> nat
    decreases validators.len(),
{
    if validators.len() == 0 {
        0
    } else {
        approvals(validators.drop_last(), block) + if validators.last().approves(block) {
            1nat
        } else {
            0nat
        }
    }
}

impl EngineView {
    /// Whether no nonce runs out at any validator.
    pub open spec fn nonces_left(self, txs: Seq<TxView>) -> bool {
        forall|i: int|
            0 <= i < self.validators.len() ==> (#[trigger] self.validators[i]).state.nonces_left(
                txs,
            )
    }

    /// Strictly more than two thirds of the validators.
    pub open spec fn quorum(self) -> nat {
        consensus::quorum_of(self.validators.len())
    }

    /// The proposer at the current height, round-robin.
    pub open spec fn proposer(self) -> int {
        self.height as int % self.validators.len() as int
    }

    /// The block that the current proposer builds.
    pub open spec fn proposal(self, txs: Seq<TxView>, timestamp_ms: u64) -> BlockView {
        let p = self.validators[self.proposer()];
        BlockView {
            header: BlockHeader {
                height: (self.height + 1) as u64,
                parent: self.parent,
                tx_root: block::tx_root_of(txs),
                state_root: p.state.apply_all(txs).root(),
                proposer: p.index,
                timestamp_ms,
            },
            transactions: txs,
        }
    }

    /// What comes of a round.
    pub open spec fn outcome(self, txs: Seq<TxView>, timestamp_ms: u64) -> OutcomeView {
        let block = self.proposal(txs, timestamp_ms);
        let n = approvals(self.validators, block);
        if n >= self.quorum() {
            OutcomeView::Committed(block)
        } else {
            OutcomeView::Rejected { approvals: n, needed: self.quorum() }
        }
    }

    /// The engine after a round: a rejected one changes nothing.
    pub open spec fn after_round(self, txs: Seq<TxView>, timestamp_ms: u64) -> EngineView {
        let block = self.proposal(txs, timestamp_ms);
        if self.outcome(txs, timestamp_ms) is Committed {
            EngineView {
                validators: Seq::new(
                    self.validators.len(),
                    |i: int| self.validators[i].committed(txs),
                ),
                height: block.header.height,
                parent: block.header.digest(),
            }
        } else {
            self
        }
    }
}

impl ConsensusEngine {
    /// All validators start from the same genesis state.
    pub fn new(num_validators: u32, genesis: State) -> (e: ConsensusEngine)
        ensures
            e@.validators == Seq::new(
                num_validators as nat,
                |i: int| (ValidatorView { index: i as u32, state: genesis@ }),
            ),
            e@.height == 0,
            e@.parent@ == Seq::new(32, |i: int| 0u8),
    {
        let mut validators: Vec<Validator> = Vec::new();
        let mut i: u32 = 0;
        while i < num_validators
            invariant
                i <= num_validators,
                validators@.len() == i,
                forall|j: int|
                    0 <= j < i ==> (#[trigger] validators@[j])@ == (ValidatorView {
                        index: j as u32,
                        state: genesis@,
                    }),
            decreases num_validators - i,
        {
            validators.push(Validator::new(i, genesis.clone()));
            i += 1;
        }
        assert(validator_views(validators@) =~= Seq::new(
            num_validators as nat,
            |i: int| (ValidatorView { index: i as u32, state: genesis@ }),
        ));
        ConsensusEngine { validators, height: 0, parent: hash::Hash::zero() }
    }

    /// Quorum threshold: strictly more than 2/3 of validators.
    pub fn quorum(&self) -> (q: usize)
        ensures
            q == self@.quorum(),
    {
        let n: usize = self.validators.len();
        let third: usize = n / 3;
        // Twice a number over three, without the intermediate product.
        2 * third + (if n % 3 == 2 { 1 } else { 0 }) + 1
    }

    fn proposer_index(&self) -> (i: usize)
        requires
            self@.validators.len() > 0,
        ensures
            i == self@.proposer(),
            i < self@.validators.len(),
    {
        (self.height % self.validators.len() as u64) as usize
    }

    /// Build a proposal for the next height from a transaction batch.
    pub fn propose(&self, txs: Vec<Transaction>, timestamp_ms: u64) -> (block: Block)
        requires
            self@.validators.len() > 0,
            self@.height < u64::MAX,
            self@.validators[self@.proposer()].state.nonces_left(transaction::tx_views(txs@)),
        ensures
            block@ == self@.proposal(transaction::tx_views(txs@), timestamp_ms),
    {
        let p: usize = self.proposer_index();
        let proposer = &self.validators[p];
        assert(self@.validators[p as int] == proposer@);
        let mut scratch = proposer.state.clone();
        // The proposer executes to compute the post-state root it commits to.
        let mut block = Block {
            header: BlockHeader {
                height: self.height + 1,
                parent: self.parent,
                tx_root: Block::compute_tx_root(txs.as_slice()),
                state_root: hash::Hash::zero(),
                proposer: proposer.index,
                timestamp_ms,
            },
            transactions: txs,
        };
        scratch.apply_block(&block);
        block.header.state_root = scratch.root();
        block
    }

    /// How many validators approve a block.
    fn count_approvals(&self, block: &Block) -> (n: usize)
        requires
            self@.nonces_left(block@.transactions),
        ensures
            n == approvals(self@.validators, block@),
    {
        let ghost views = self@.validators;
        let mut n: usize = 0;
        let mut i: usize = 0;
        while i < self.validators.len()
            invariant
                i <= self.validators@.len(),
                views == self@.validators,
                views.len() == self.validators@.len(),
                n <= i,
                n == approvals(views.take(i as int), block@),
                self@.nonces_left(block@.transactions),
            decreases self.validators@.len() - i,
        {
            assert(views[i as int] == self.validators@[i as int]@);
            assert(views.take(i + 1).drop_last() =~= views.take(i as int));
            if self.validators[i].vote(block).approve {
                n += 1;
            }
            i += 1;
        }
        assert(views.take(i as int) =~= views);
        n
    }

    /// Have every validator apply a committed block.
    fn commit_all(&mut self, block: &Block)
        requires
            old(self)@.nonces_left(block@.transactions),
        ensures
            final(self)@ == (EngineView {
                validators: Seq::new(
                    old(self)@.validators.len(),
                    |i: int| old(self)@.validators[i].committed(block@.transactions),
                ),
                ..old(self)@
            }),
    {
        let ghost before = self@.validators;
        let mut validators: Vec<Validator> = Vec::new();
        std::mem::swap(&mut validators, &mut self.validators);
        let mut i: usize = 0;
        while i < validators.len()
            invariant
                i <= validators@.len(),
                validators@.len() == before.len(),
                forall|j: int|
                    0 <= j < before.len() ==> (#[trigger] before[j]).state.nonces_left(
                        block@.transactions,
                    ),
                forall|j: int|
                    0 <= j < i ==> (#[trigger] validators@[j])@ == before[j].committed(
                        block@.transactions,
                    ),
                forall|j: int|
                    i <= j < before.len() ==> (#[trigger] validators@[j])@ == before[j],
            decreases validators@.len() - i,
        {
            assert(validators@[i as int]@ == before[i as int]);
            let ghost held = validators@;
            validators[i].commit(block);
            assert(validators@ =~= held.update(i as int, validators@[i as int]));
            i += 1;
        }
        self.validators = validators;
        assert(self@.validators =~= Seq::new(
            before.len(),
            |i: int| before[i].committed(block@.transactions),
        ));
    }

    /// Run one round: propose, gather votes, commit on quorum.
    pub fn run_round(&mut self, txs: Vec<Transaction>, timestamp_ms: u64) -> (outcome: RoundOutcome)
        requires
            old(self)@.validators.len() > 0,
            old(self)@.height < u64::MAX,
            old(self)@.nonces_left(transaction::tx_views(txs@)),
        ensures
            outcome@ == old(self)@.outcome(transaction::tx_views(txs@), timestamp_ms),
            final(self)@ == old(self)@.after_round(transaction::tx_views(txs@), timestamp_ms),
    {
        let block = self.propose(txs, timestamp_ms);
        let approvals: usize = self.count_approvals(&block);
        let needed: usize = self.quorum();
        if approvals >= needed {
            self.commit_all(&block);
            self.height = block.header.height;
            self.parent = block.header.hash();
            RoundOutcome::Committed(block)
        } else {
            RoundOutcome::Rejected { approvals, needed }
        }
    }

    /// Reference to validator 0's state (all honest validators agree).
    pub fn canonical_state(&self) -> (s: &State)
        requires
            self@.validators.len() > 0,
        ensures
            s@ == self@.validators[0].state,
    {
        &self.validators[0].state
    }
}

/// Whether all validators hold the same state.
pub open spec fn in_agreement(e: EngineView) -> bool {
    forall|i: int|
        0 <= i < e.validators.len() ==> (#[trigger] e.validators[i]).state == e.validators[0].state
}

/// Validators that agree before a round agree after it.
pub proof fn law_validators_stay_in_agreement(e: EngineView, txs: Seq<TxView>, timestamp_ms: u64)
    requires
        in_agreement(e),
    ensures
        in_agreement(e.after_round(txs, timestamp_ms)),
{
    let after = e.after_round(txs, timestamp_ms);
    assert forall|i: int| 0 <= i < after.validators.len() implies (
    #[trigger] after.validators[i]).state == after.validators[0].state by {
        assert(e.validators[i].state == e.validators[0].state);
    }
}

proof fn lemma_all_approve(validators: Seq<ValidatorView>, block: BlockView)
    requires
        forall|i: int| 0 <= i < validators.len() ==> (#[trigger] validators[i]).approves(block),
    ensures
        approvals(validators, block) == validators.len(),
    decreases validators.len(),
{
    if validators.len() > 0 {
        let rest = validators.drop_last();
        assert forall|i: int| 0 <= i < rest.len() implies (#[trigger] rest[i]).approves(block) by {
            assert(validators[i].approves(block));
        }
        lemma_all_approve(rest, block);
    }
}

proof fn lemma_none_approves(validators: Seq<ValidatorView>, block: BlockView)
    requires
        forall|i: int| 0 <= i < validators.len() ==> !(#[trigger] validators[i]).approves(block),
    ensures
        approvals(validators, block) == 0,
    decreases validators.len(),
{
    if validators.len() > 0 {
        let rest = validators.drop_last();
        assert forall|i: int| 0 <= i < rest.len() implies !(#[trigger] rest[i]).approves(block) by {
            assert(!validators[i].approves(block));
        }
        lemma_none_approves(rest, block);
    }
}

/// A round among validators in agreement commits the proposed block: every one
/// of them approves it.
pub proof fn law_honest_round_commits(e: EngineView, txs: Seq<TxView>, timestamp_ms: u64)
    requires
        e.validators.len() > 0,
        in_agreement(e),
    ensures
        approvals(e.validators, e.proposal(txs, timestamp_ms)) == e.validators.len(),
        e.outcome(txs, timestamp_ms) == OutcomeView::Committed(e.proposal(txs, timestamp_ms)),
{
    let n = e.validators.len() as int;
    let block = e.proposal(txs, timestamp_ms);
    vstd::arithmetic::div_mod::lemma_mod_bound(e.height as int, n);
    assert forall|i: int| 0 <= i < n implies (#[trigger] e.validators[i]).approves(block) by {
        assert(e.validators[e.proposer()].state == e.validators[0].state);
    }
    lemma_all_approve(e.validators, block);
    consensus::law_quorum_is_a_supermajority(e.validators.len());
}

/// A block whose state root is not that of its execution gets no vote from
/// validators in agreement.
pub proof fn law_bad_roots_get_no_votes(e: EngineView, block: BlockView)
    requires
        e.validators.len() > 0,
        in_agreement(e),
        block.header.state_root != e.validators[0].state.apply_all(block.transactions).root(),
    ensures
        approvals(e.validators, block) == 0,
{
    assert forall|i: int| 0 <= i < e.validators.len() implies !(
    #[trigger] e.validators[i]).approves(block) by {
        assert(e.validators[i].state == e.validators[0].state);
    }
    lemma_none_approves(e.validators, block);
}

/// The proposer rotates: after a committed round it is the next validator's
/// turn, and after the last one the first one's.
pub proof fn law_proposer_rotates(e: EngineView, txs: Seq<TxView>, timestamp_ms: u64)
    requires
        e.validators.len() > 0,
        e.height < u64::MAX,
        e.outcome(txs, timestamp_ms) is Committed,
    ensures
        e.after_round(txs, timestamp_ms).proposer() == if e.proposer() + 1 == e.validators.len() {
            0
        } else {
            e.proposer() + 1
        },
{
    let n = e.validators.len() as int;
    let h = e.height as int;
    assert((h + 1) % n == (if h % n + 1 == n {
        0
    } else {
        h % n + 1
    })) by (nonlinear_arith)
        requires
            n > 0,
            h >= 0,
    ;
}

/// A vote approves a block exactly if the transaction root is that of the
/// block's own transactions and the state root is that of running them here.
pub proof fn law_votes_check_both_roots(v: ValidatorView, block: BlockView)
    ensures
        v.approves(block) <==> {
            let txs = block.transactions;
            &&& block.header.tx_root == merkle::root_of(Seq::new(txs.len(), |i: int| txs[i].id()))
            &&& block.header.state_root == v.state.apply_all(txs).root()
        },
{
}

/// Approvals are counted one by one.
pub proof fn law_approvals_are_counted(
    validators: Seq<ValidatorView>,
    v: ValidatorView,
    block: BlockView,
)
    ensures
        approvals(Seq::empty(), block) == 0,
        approvals(validators.push(v), block) == approvals(validators, block) + (if v.approves(
            block,
        ) {
            1nat
        } else {
            0nat
        }),
{
    assert(validators.push(v).drop_last() =~= validators);
}

/// The proposal continues the chain: it holds the batch, at the next height, on
/// top of the last block, with the roots of running it on the proposer's state.
pub proof fn law_proposals_continue_the_chain(e: EngineView, txs: Seq<TxView>, timestamp_ms: u64)
    requires
        e.validators.len() > 0,
        e.height < u64::MAX,
    ensures
        ({
            let p = e.validators[e.height as int % e.validators.len() as int];
            let block = e.proposal(txs, timestamp_ms);
            &&& block.transactions == txs
            &&& block.header.height == e.height + 1
            &&& block.header.parent == e.parent
            &&& block.header.proposer == p.index
            &&& block.header.timestamp_ms == timestamp_ms
            &&& block.header.tx_root == merkle::root_of(Seq::new(txs.len(), |i: int| txs[i].id()))
            &&& block.header.state_root == p.state.apply_all(txs).root()
        }),
{
}

/// A round commits exactly if more than two thirds approve. Then the block is
/// the new head and every validator has run it; otherwise nothing has changed.
pub proof fn law_rounds_need_a_supermajority(
    e: EngineView,
    txs: Seq<TxView>,
    timestamp_ms: u64,
    i: int,
)
    requires
        e.height < u64::MAX,
        0 <= i < e.validators.len(),
    ensures
        ({
            let block = e.proposal(txs, timestamp_ms);
            let yes = approvals(e.validators, block);
            let after = e.after_round(txs, timestamp_ms);
            match e.outcome(txs, timestamp_ms) {
                OutcomeView::Committed(b) => {
                    &&& 3 * yes > 2 * e.validators.len()
                    &&& b == block
                    &&& after.height == e.height + 1
                    &&& after.parent == block.header.digest()
                    &&& after.validators.len() == e.validators.len()
                    &&& after.validators[i].state == e.validators[i].state.apply_all(txs)
                    &&& after.validators[i].index == e.validators[i].index
                },
                OutcomeView::Rejected { approvals: n, needed } => {
                    &&& 3 * yes <= 2 * e.validators.len()
                    &&& n == yes && needed == e.quorum()
                    &&& after == e
                },
            }
        }),
{
    consensus::law_quorum_is_the_least_supermajority(
        e.validators.len(),
        approvals(e.validators, e.proposal(txs, timestamp_ms)),
    );
}

} // verus!
