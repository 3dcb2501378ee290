//! Mempool: admission control and batch selection.
//!
//! Admission against current state with per-sender nonce *and balance*
//! projection over queued transactions, a free-lane quota, duplicate
//! rejection, and re-queuing of batches whose round failed to commit. Conflict
//! grouping lives in [`crate::executor`], which consumes the batches this
//! mempool produces.

use vstd::prelude::*;

use crate::account::AccountId;
use crate::bytemap::{ByteMap, Key};
use crate::hash;
use crate::receipt::TxError;
use crate::state;
use crate::state::{State, StateView};
use crate::transaction;
use crate::transaction::{Transaction, TransactionKind, TxView};

verus! {

/// Default global capacity: maximum transactions held pending across all
/// senders. Bounds mempool memory so a flood of distinct senders cannot
/// exhaust it.
pub const DEFAULT_MAX_PENDING: usize = 100_000;

/// Why a transaction was refused admission.
#[derive(Clone, Copy, Debug, PartialEq, Eq, Structural)]
pub enum AdmissionError {
    /// Stateful validation failed (nonce, balance, auth, unknown sender, wrong
    /// chain, oversized, unauthorized issuance).
    Invalid(TxError),
    /// Free-lane quota exhausted for this sender this block window.
    QuotaExceeded,
    /// Global mempool capacity reached.
    Full,
    /// Same transaction already pending.
    Duplicate,
}

/// The contents of a [`Mempool`].
#[verifier::ext_equal]
pub struct MempoolView {
    /// Queued transactions, in order of submission.
    pub queue: Seq<TxView>,
    /// Ids that count as pending.
    pub pending: Set<hash::Hash>,
    /// Free-lane transactions admitted per sender in the current window.
    pub usage: Map<AccountId, u32>,
    pub quota_per_window: u32,
    pub max_pending: usize,
}

/// How many of the transactions come from `id`.
pub open spec fn queued_by(queue: Seq<TxView>, id: AccountId) -> nat
    decreases queue.len(),
{
    if queue.len() == 0 {
        0
    } else {
        queued_by(queue.drop_last(), id) + if queue.last().sender == id {
            1nat
        } else {
            0nat
        }
    }
}

/// What the transfers among the transactions would take from `id`.
pub open spec fn outflow_by(queue: Seq<TxView>, id: AccountId) -> int
    decreases queue.len(),
{
    if queue.len() == 0 {
        0
    } else {
        outflow_by(queue.drop_last(), id) + if queue.last().sender == id {
            state::spend(queue.last()) as int
        } else {
            0
        }
    }
}

/// The ids that stay pending when the batch leaves.
pub open spec fn without_ids(pending: Set<hash::Hash>, batch: Seq<TxView>) -> Set<hash::Hash>
    decreases batch.len(),
{
    if batch.len() == 0 {
        pending
    } else {
        without_ids(pending, batch.drop_last()).remove(batch.last().id())
    }
}

/// The ids that are pending when the batch comes back.
pub open spec fn with_ids(pending: Set<hash::Hash>, batch: Seq<TxView>) -> Set<hash::Hash>
    decreases batch.len(),
{
    if batch.len() == 0 {
        pending
    } else {
        with_ids(pending, batch.drop_first()).insert(batch[0].id())
    }
}

/// Whether one of the transactions has the id.
pub open spec fn holds_id(queue: Seq<TxView>, h: hash::Hash) -> bool {
    exists|i: int| 0 <= i < queue.len() && (#[trigger] queue[i]).id() == h
}

/// Whether a batch and a queue together hold every id once.
pub open spec fn ids_differ(batch: Seq<TxView>, queue: Seq<TxView>) -> bool {
    &&& forall|i: int, j: int|
        0 <= i < j < batch.len() ==> (#[trigger] batch[i]).id() != (#[trigger] batch[j]).id()
    &&& forall|i: int| 0 <= i < batch.len() ==> !holds_id(queue, (#[trigger] batch[i]).id())
}

/// Whether the `i`-th transaction is the next one of its sender: it is not
/// taken, and every earlier one of the sender is.
pub open spec fn is_head(queue: Seq<TxView>, taken: Set<int>, i: int) -> bool {
    &&& 0 <= i < queue.len()
    &&& !taken.contains(i)
    &&& forall|j: int|
        0 <= j < i && (#[trigger] queue[j]).sender == queue[i].sender ==> taken.contains(j)
}

/// Whether the `i`-th transaction goes before the `j`-th: it offers more, or
/// as much and was submitted earlier.
pub open spec fn outbids(queue: Seq<TxView>, i: int, j: int) -> bool {
    queue[i].max_fee > queue[j].max_fee || (queue[i].max_fee == queue[j].max_fee && i < j)
}

/// Whether the `i`-th transaction is the head that goes before all others.
pub open spec fn is_best(queue: Seq<TxView>, taken: Set<int>, i: int) -> bool {
    &&& is_head(queue, taken, i)
    &&& forall|j: int| #[trigger] is_head(queue, taken, j) && j != i ==> outbids(queue, i, j)
}

/// The positions of the first `k` transactions by fee: at each step the best
/// head is taken.
pub open spec fn selection(queue: Seq<TxView>, k: nat) -> Seq<int>
    decreases k,
{
    if k == 0 {
        Seq::empty()
    } else {
        let before = selection(queue, (k - 1) as nat);
        before.push(choose|i: int| is_best(queue, before.to_set(), i))
    }
}

/// The transactions at the given positions.
pub open spec fn picked(queue: Seq<TxView>, positions: Seq<int>) -> Seq<TxView> {
    Seq::new(positions.len(), |i: int| queue[positions[i]])
}

/// The transactions that are not taken, in their original order.
pub open spec fn left_over(queue: Seq<TxView>, taken: Set<int>) -> Seq<TxView>
    decreases queue.len(),
{
    if queue.len() == 0 {
        Seq::empty()
    } else {
        let before = left_over(queue.drop_last(), taken);
        if taken.contains(queue.len() - 1) {
            before
        } else {
            before.push(queue.last())
        }
    }
}

/// The smaller of a wish and what there is.
pub open spec fn at_most(max: usize, len: nat) -> nat {
    if max <= len {
        max as nat
    } else {
        len
    }
}

impl MempoolView {
    pub open spec fn used(self, id: AccountId) -> u32 {
        if self.usage.contains_key(id) {
            self.usage[id]
        } else {
            0
        }
    }

    /// What the sender can still spend once its queued transfers are through.
    pub open spec fn spendable(self, s: StateView, id: AccountId) -> u64 {
        let left = s.accounts[id].balance - outflow_by(self.queue, id);
        if left < 0 {
            0
        } else {
            left as u64
        }
    }

    /// The check of a transaction against the sender's account, projected over
    /// what the sender has queued.
    pub open spec fn projected(self, tx: TxView, s: StateView) -> Result<(), TxError> {
        if s.accounts.contains_key(tx.sender) {
            let expected = s.accounts[tx.sender].nonce + queued_by(self.queue, tx.sender);
            if tx.nonce != expected {
                Err(TxError::BadNonce { expected: expected as u64, got: tx.nonce })
            } else if tx.kind is Transfer && tx.kind.amount() > self.spendable(s, tx.sender) {
                Err(
                    TxError::InsufficientBalance {
                        have: self.spendable(s, tx.sender),
                        need: tx.kind.amount(),
                    },
                )
            } else {
                Ok(())
            }
        } else {
            Ok(())
        }
    }

    /// Whether a submission gets as far as being projected: it is neither too
    /// large, nor too many, nor a duplicate, nor over the quota.
    pub open spec fn projects(self, tx: TxView) -> bool {
        &&& state::within_limits(tx)
        &&& self.queue.len() < self.max_pending
        &&& !self.pending.contains(tx.id())
        &&& self.used(tx.sender) < self.quota_per_window
    }

    /// Whether a submission that gets that far can be projected: the sender's
    /// next nonce, or what an unknown sender has queued to spend, fits 64 bits.
    pub open spec fn considers(self, tx: TxView, s: StateView) -> bool {
        self.projects(tx) ==> if s.accounts.contains_key(tx.sender) {
            s.accounts[tx.sender].nonce + queued_by(self.queue, tx.sender) <= u64::MAX
        } else {
            outflow_by(self.queue, tx.sender) + state::spend(tx) <= u64::MAX
        }
    }

    /// Whether the pending ids are those of the queue, each of them queued
    /// once.
    pub open spec fn tidy(self) -> bool {
        &&& forall|i: int, j: int|
            0 <= i < j < self.queue.len() ==> (#[trigger] self.queue[i]).id() != (
            #[trigger] self.queue[j]).id()
        &&& forall|h: hash::Hash| #[trigger]
            self.pending.contains(h) <==> holds_id(self.queue, h)
    }

    /// Whether a batch can go back in front: what any sender has queued to
    /// spend still fits 64 bits, and the queue fits the machine.
    pub open spec fn takes_back(self, batch: Seq<TxView>) -> bool {
        &&& forall|id: AccountId| #[trigger] outflow_by(batch + self.queue, id) <= u64::MAX
        &&& batch.len() + self.queue.len() <= usize::MAX
    }

    /// The verdict on a submission.
    pub open spec fn admission(self, tx: TxView, s: StateView) -> Result<(), AdmissionError> {
        if !state::within_limits(tx) {
            Err(AdmissionError::Invalid(TxError::TransactionTooLarge))
        } else if self.queue.len() >= self.max_pending {
            Err(AdmissionError::Full)
        } else if self.pending.contains(tx.id()) {
            Err(AdmissionError::Duplicate)
        } else if self.used(tx.sender) >= self.quota_per_window {
            Err(AdmissionError::QuotaExceeded)
        } else {
            match self.projected(tx, s) {
                Err(e) => Err(AdmissionError::Invalid(e)),
                Ok(_) => if queued_by(self.queue, tx.sender) == 0 {
                    match s.verdict(tx) {
                        Err(e) => Err(AdmissionError::Invalid(e)),
                        Ok(_) => Ok(()),
                    }
                } else {
                    Ok(())
                },
            }
        }
    }

    /// The pool with one more transaction.
    pub open spec fn admitted(self, tx: TxView) -> MempoolView {
        MempoolView {
            queue: self.queue.push(tx),
            pending: self.pending.insert(tx.id()),
            usage: self.usage.insert(tx.sender, (self.used(tx.sender) + 1) as u32),
            ..self
        }
    }

    /// The pool without its first `n` transactions.
    pub open spec fn drained(self, n: int) -> MempoolView {
        MempoolView {
            queue: self.queue.skip(n),
            pending: without_ids(self.pending, self.queue.take(n)),
            ..self
        }
    }

    /// The pool without its first `n` transactions by fee.
    pub open spec fn skimmed(self, n: nat) -> MempoolView {
        let positions = selection(self.queue, n);
        MempoolView {
            queue: left_over(self.queue, positions.to_set()),
            pending: without_ids(self.pending, picked(self.queue, positions)),
            ..self
        }
    }

    /// The pool with a batch put back in front.
    pub open spec fn requeued(self, batch: Seq<TxView>) -> MempoolView {
        MempoolView {
            queue: batch + self.queue,
            pending: with_ids(self.pending, batch),
            ..self
        }
    }
}

/// Per-sender aggregate over the queued transactions, so admission checks need
/// not scan the whole queue per submit.
#[derive(Clone, Copy, Debug)]
struct SenderProjection {
    /// Number of queued transactions from this sender.
    queued: u64,
    /// Total amount this sender's queued transfers would spend.
    outflow: u64,
}

fn outflow_of(tx: &Transaction) -> (amount: u64)
    ensures
        amount == state::spend(tx@),
{
    match &tx.kind {
        TransactionKind::Transfer { amount, .. } => *amount,
        TransactionKind::Mint { .. } => 0,
    }
}

/// What the aggregate says of a sender.
spec fn aggregate(m: Map<Key, SenderProjection>, id: AccountId) -> (nat, int) {
    if m.contains_key(id.0.0) {
        (m[id.0.0].queued as nat, m[id.0.0].outflow as int)
    } else {
        (0nat, 0int)
    }
}

/// Whether the aggregate is that of the queue, and holds no idle sender.
spec fn in_sync(m: Map<Key, SenderProjection>, queue: Seq<TxView>) -> bool {
    forall|id: AccountId|
        #![trigger queued_by(queue, id)]
        #![trigger outflow_by(queue, id)]
        #![trigger m.contains_key(id.0.0)]
        aggregate(m, id) == (queued_by(queue, id), outflow_by(queue, id)) && (m.contains_key(id.0.0)
            ==> queued_by(queue, id) > 0)
}

/// The queue and what is derived from it.
#[derive(Debug)]
pub struct Lanes {
    queue: Vec<Transaction>,
    /// Ids of queued transactions for fast duplicate rejection.
    pending: ByteMap<()>,
    /// Queued-count and outflow per sender, kept in sync with `queue`.
    per_sender: ByteMap<SenderProjection>,
    /// Free-lane txs admitted per sender in the current window.
    usage: ByteMap<u32>,
}

spec fn id_set(m: Map<Key, ()>) -> Set<hash::Hash> {
    Set::new(|h: hash::Hash| m.contains_key(h.0))
}

spec fn usage_view(m: Map<Key, u32>) -> Map<AccountId, u32> {
    Map::new(|id: AccountId| m.contains_key(id.0.0), |id: AccountId| m[id.0.0])
}

/// The contents of [`Lanes`].
#[verifier::ext_equal]
pub struct LanesView {
    pub queue: Seq<TxView>,
    pub pending: Set<hash::Hash>,
    pub usage: Map<AccountId, u32>,
}

impl View for Lanes {
    type V = LanesView;

    closed spec fn view(&self) -> LanesView {
        LanesView {
            queue: transaction::tx_views(self.queue@),
            pending: id_set(self.pending@),
            usage: usage_view(self.usage@),
        }
    }
}

impl Lanes {
    #[verifier::type_invariant]
    spec fn well_formed(&self) -> bool {
        in_sync(self.per_sender@, transaction::tx_views(self.queue@))
    }

    fn empty() -> (l: Lanes)
        ensures
            l.queue@ == Seq::<Transaction>::empty(),
            id_set(l.pending@) == Set::<hash::Hash>::empty(),
            usage_view(l.usage@) == Map::<AccountId, u32>::empty(),
    {
        let l = Lanes {
            queue: Vec::new(),
            pending: ByteMap::new(),
            per_sender: ByteMap::new(),
            usage: ByteMap::new(),
        };
        assert(id_set(l.pending@) =~= Set::<hash::Hash>::empty());
        assert(usage_view(l.usage@) =~= Map::<AccountId, u32>::empty());
        l
    }
}

/// FIFO mempool with per-sender free-lane quotas.
#[derive(Debug)]
pub struct Mempool {
    /// Max free transactions per sender per window.
    pub quota_per_window: u32,
    /// Global capacity across all senders (memory-exhaustion bound).
    pub max_pending: usize,
    /// The queued transactions.
    pub lanes: Lanes,
}

impl View for Mempool {
    type V = MempoolView;

    open spec fn view(&self) -> MempoolView {
        MempoolView {
            queue: self.lanes@.queue,
            pending: self.lanes@.pending,
            usage: self.lanes@.usage,
            quota_per_window: self.quota_per_window,
            max_pending: self.max_pending,
        }
    }
}

/// Notes a transaction that joins the queue.
fn track(pending: &mut ByteMap<()>, per_sender: &mut ByteMap<SenderProjection>, tx: &Transaction)
    requires
        aggregate(old(per_sender)@, tx@.sender).0 < u64::MAX,
        aggregate(old(per_sender)@, tx@.sender).1 + state::spend(tx@) <= u64::MAX,
    ensures
        id_set(final(pending)@) == id_set(old(pending)@).insert(tx@.id()),
        final(per_sender)@ == old(per_sender)@.insert(
            tx@.sender.0.0,
            SenderProjection {
                queued: (aggregate(old(per_sender)@, tx@.sender).0 + 1) as u64,
                outflow: (aggregate(old(per_sender)@, tx@.sender).1 + state::spend(tx@)) as u64,
            },
        ),
{
    let id = tx.id();
    pending.insert(id.0, ());
    assert(id_set(pending@) =~= id_set(old(pending)@).insert(tx@.id()));
    let mut p: SenderProjection = match per_sender.get(&tx.sender.0.0) {
        Some(p) => *p,
        None => SenderProjection { queued: 0, outflow: 0 },
    };
    p.queued = p.queued + 1;
    p.outflow = p.outflow + outflow_of(tx);
    per_sender.insert(tx.sender.0.0, p);
}

/// Notes a transaction that leaves the queue.
fn untrack(pending: &mut ByteMap<()>, per_sender: &mut ByteMap<SenderProjection>, tx: &Transaction)
    requires
        aggregate(old(per_sender)@, tx@.sender).0 > 0,
        aggregate(old(per_sender)@, tx@.sender).1 >= state::spend(tx@),
    ensures
        id_set(final(pending)@) == id_set(old(pending)@).remove(tx@.id()),
        final(per_sender)@ == if aggregate(old(per_sender)@, tx@.sender).0 == 1 {
            old(per_sender)@.remove(tx@.sender.0.0)
        } else {
            old(per_sender)@.insert(
                tx@.sender.0.0,
                SenderProjection {
                    queued: (aggregate(old(per_sender)@, tx@.sender).0 - 1) as u64,
                    outflow: (aggregate(old(per_sender)@, tx@.sender).1 - state::spend(tx@)) as u64,
                },
            )
        },
{
    let id = tx.id();
    pending.remove(&id.0);
    assert(id_set(pending@) =~= id_set(old(pending)@).remove(tx@.id()));
    if let Some(p) = per_sender.get(&tx.sender.0.0) {
        let queued: u64 = p.queued - 1;
        let outflow: u64 = p.outflow - outflow_of(tx);
        if queued == 0 {
            per_sender.remove(&tx.sender.0.0);
        } else {
            per_sender.insert(tx.sender.0.0, SenderProjection { queued, outflow });
        }
    }
}

proof fn lemma_counts_concat(a: Seq<TxView>, b: Seq<TxView>, id: AccountId)
    ensures
        queued_by(a + b, id) == queued_by(a, id) + queued_by(b, id),
        outflow_by(a + b, id) == outflow_by(a, id) + outflow_by(b, id),
    decreases b.len(),
{
    if b.len() == 0 {
        assert(a + b =~= a);
    } else {
        lemma_counts_concat(a, b.drop_last(), id);
        assert((a + b).drop_last() =~= a + b.drop_last());
        assert((a + b).last() == b.last());
    }
}

proof fn lemma_counts_one(tx: TxView, id: AccountId)
    ensures
        queued_by(seq![tx], id) == if tx.sender == id {
            1nat
        } else {
            0nat
        },
        outflow_by(seq![tx], id) == if tx.sender == id {
            state::spend(tx) as int
        } else {
            0
        },
{
    assert(seq![tx].drop_last() =~= Seq::<TxView>::empty());
    assert(queued_by(seq![tx].drop_last(), id) == 0);
    assert(outflow_by(seq![tx].drop_last(), id) == 0);
}

proof fn lemma_counts_bounds(queue: Seq<TxView>, id: AccountId)
    ensures
        queued_by(queue, id) <= queue.len(),
        outflow_by(queue, id) >= 0,
        queued_by(queue, id) == 0 ==> outflow_by(queue, id) == 0,
    decreases queue.len(),
{
    if queue.len() > 0 {
        lemma_counts_bounds(queue.drop_last(), id);
    }
}

/// Whether `more` is `fewer` with one transaction more.
spec fn one_more(more: Seq<TxView>, fewer: Seq<TxView>, tx: TxView) -> bool {
    forall|id: AccountId|
        #![trigger queued_by(more, id)]
        #![trigger queued_by(fewer, id)]
        queued_by(more, id) == queued_by(fewer, id) + queued_by(seq![tx], id) && outflow_by(
            more,
            id,
        ) == outflow_by(fewer, id) + outflow_by(seq![tx], id)
}

/// Transactions of others take nothing from an account.
proof fn lemma_no_outflow(queue: Seq<TxView>, id: AccountId)
    requires
        forall|j: int| 0 <= j < queue.len() ==> (#[trigger] queue[j]).sender != id,
    ensures
        outflow_by(queue, id) == 0,
    decreases queue.len(),
{
    if queue.len() > 0 {
        let rest = queue.drop_last();
        assert forall|j: int| 0 <= j < rest.len() implies (#[trigger] rest[j]).sender != id by {
            assert(rest[j] == queue[j]);
        }
        lemma_no_outflow(rest, id);
        assert(queue[queue.len() - 1].sender != id);
    }
}

proof fn lemma_sync_track(
    before: Map<Key, SenderProjection>,
    after: Map<Key, SenderProjection>,
    fewer: Seq<TxView>,
    more: Seq<TxView>,
    tx: TxView,
)
    requires
        in_sync(before, fewer),
        one_more(more, fewer, tx),
        aggregate(before, tx.sender).0 < u64::MAX,
        aggregate(before, tx.sender).1 + state::spend(tx) <= u64::MAX,
        after == before.insert(
            tx.sender.0.0,
            SenderProjection {
                queued: (aggregate(before, tx.sender).0 + 1) as u64,
                outflow: (aggregate(before, tx.sender).1 + state::spend(tx)) as u64,
            },
        ),
    ensures
        in_sync(after, more),
{
    assert forall|id: AccountId|
        #![trigger queued_by(more, id)]
        #![trigger outflow_by(more, id)]
        #![trigger after.contains_key(id.0.0)]
        aggregate(after, id) == (queued_by(more, id), outflow_by(more, id)) && (after.contains_key(
            id.0.0,
        ) ==> queued_by(more, id) > 0) by {
        lemma_counts_one(tx, id);
        lemma_counts_bounds(fewer, id);
        assert(queued_by(fewer, id) == aggregate(before, id).0);
        assert(queued_by(more, id) == queued_by(fewer, id) + queued_by(seq![tx], id));
        if id.0.0 == tx.sender.0.0 {
            assert(id == tx.sender);
        }
    }
}

proof fn lemma_sync_untrack(
    before: Map<Key, SenderProjection>,
    after: Map<Key, SenderProjection>,
    fewer: Seq<TxView>,
    more: Seq<TxView>,
    tx: TxView,
)
    requires
        in_sync(before, more),
        one_more(more, fewer, tx),
        after == if aggregate(before, tx.sender).0 == 1 {
            before.remove(tx.sender.0.0)
        } else {
            before.insert(
                tx.sender.0.0,
                SenderProjection {
                    queued: (aggregate(before, tx.sender).0 - 1) as u64,
                    outflow: (aggregate(before, tx.sender).1 - state::spend(tx)) as u64,
                },
            )
        },
    ensures
        in_sync(after, fewer),
{
    assert forall|id: AccountId|
        #![trigger queued_by(fewer, id)]
        #![trigger outflow_by(fewer, id)]
        #![trigger after.contains_key(id.0.0)]
        aggregate(after, id) == (queued_by(fewer, id), outflow_by(fewer, id)) && (
        after.contains_key(id.0.0) ==> queued_by(fewer, id) > 0) by {
        lemma_counts_one(tx, id);
        lemma_counts_bounds(fewer, id);
        assert(queued_by(more, id) == aggregate(before, id).0);
        assert(queued_by(more, id) == queued_by(fewer, id) + queued_by(seq![tx], id));
        if id.0.0 == tx.sender.0.0 {
            assert(id == tx.sender);
        }
    }
}

/// What can be taken out of the aggregate of a queue that holds `tx`.
proof fn lemma_can_untrack(
    m: Map<Key, SenderProjection>,
    more: Seq<TxView>,
    fewer: Seq<TxView>,
    tx: TxView,
)
    requires
        in_sync(m, more),
        one_more(more, fewer, tx),
    ensures
        aggregate(m, tx.sender).0 > 0,
        aggregate(m, tx.sender).1 >= state::spend(tx),
{
    let id = tx.sender;
    lemma_counts_one(tx, id);
    lemma_counts_bounds(fewer, id);
    assert(queued_by(more, id) == queued_by(fewer, id) + queued_by(seq![tx], id));
    assert(queued_by(more, id) == aggregate(m, id).0);
}

proof fn lemma_one_more_push(queue: Seq<TxView>, tx: TxView)
    ensures
        one_more(queue.push(tx), queue, tx),
{
    assert(queue.push(tx) =~= queue + seq![tx]);
    assert forall|id: AccountId|
        #![trigger queued_by(queue.push(tx), id)]
        #![trigger queued_by(queue, id)]
        queued_by(queue.push(tx), id) == queued_by(queue, id) + queued_by(seq![tx], id)
            && outflow_by(queue.push(tx), id) == outflow_by(queue, id) + outflow_by(
            seq![tx],
            id,
        ) by {
        lemma_counts_concat(queue, seq![tx], id);
    }
}

proof fn lemma_one_more_front(queue: Seq<TxView>, tx: TxView)
    ensures
        one_more(seq![tx] + queue, queue, tx),
{
    assert forall|id: AccountId|
        #![trigger queued_by(seq![tx] + queue, id)]
        #![trigger queued_by(queue, id)]
        queued_by(seq![tx] + queue, id) == queued_by(queue, id) + queued_by(seq![tx], id)
            && outflow_by(seq![tx] + queue, id) == outflow_by(queue, id) + outflow_by(
            seq![tx],
            id,
        ) by {
        lemma_counts_concat(seq![tx], queue, id);
    }
}

proof fn lemma_views_push(txs: Seq<Transaction>, tx: Transaction)
    ensures
        transaction::tx_views(txs.push(tx)) == transaction::tx_views(txs).push(tx@),
{
    assert(transaction::tx_views(txs.push(tx)) =~= transaction::tx_views(txs).push(tx@));
}

impl Default for Mempool {
    fn default() -> (m: Mempool)
        ensures
            m@ == (MempoolView {
                queue: Seq::empty(),
                pending: Set::empty(),
                usage: Map::empty(),
                quota_per_window: 16,
                max_pending: DEFAULT_MAX_PENDING,
            }),
    {
        Mempool::new(16)
    }
}

impl Mempool {
    pub fn new(quota_per_window: u32) -> (m: Mempool)
        ensures
            m@ == (MempoolView {
                queue: Seq::empty(),
                pending: Set::empty(),
                usage: Map::empty(),
                quota_per_window,
                max_pending: DEFAULT_MAX_PENDING,
            }),
            m@.tidy(),
    {
        Self::with_capacity(quota_per_window, DEFAULT_MAX_PENDING)
    }

    /// Construct with an explicit global capacity.
    pub fn with_capacity(quota_per_window: u32, max_pending: usize) -> (m: Mempool)
        ensures
            m@ == (MempoolView {
                queue: Seq::empty(),
                pending: Set::empty(),
                usage: Map::empty(),
                quota_per_window,
                max_pending,
            }),
            m@.tidy(),
    {
        let m = Mempool { quota_per_window, max_pending, lanes: Lanes::empty() };
        assert(m@.queue =~= Seq::<TxView>::empty());
        m
    }

    pub fn len(&self) -> (n: usize)
        ensures
            n == self@.queue.len(),
    {
        self.lanes.queue.len()
    }

    pub fn is_empty(&self) -> (b: bool)
        ensures
            b == (self@.queue.len() == 0),
    {
        self.lanes.queue.len() == 0
    }

    /// Admit a transaction if it is valid against `state` *projected over
    /// transactions already queued from the same sender* (nonce sequence and
    /// remaining spendable balance) and within the free-lane quota.
    ///
    /// The head-of-line transaction per sender gets full stateful validation
    /// including auth; deeper-queued ones are admitted on projection and
    /// re-checked at execution.
    pub fn submit(&mut self, tx: Transaction, state: &State) -> (r: Result<(), AdmissionError>)
        requires
            old(self)@.considers(tx@, state@),
        ensures
            r == old(self)@.admission(tx@, state@),
            final(self)@ == if r is Ok {
                old(self)@.admitted(tx@)
            } else {
                old(self)@
            },
            old(self)@.tidy() ==> final(self)@.tidy(),
    {
        // Structural bounds first, before hashing the id or any state work, so
        // an oversized transaction can't make us do expensive work just to
        // reject it.
        if let Err(e) = State::check_limits(&tx) {
            return Err(AdmissionError::Invalid(e));
        }
        if self.lanes.queue.len() >= self.max_pending {
            return Err(AdmissionError::Full);
        }
        let id = tx.id();
        if self.lanes.pending.contains_key(&id.0) {
            return Err(AdmissionError::Duplicate);
        }
        let used: u32 = self.usage_of(&tx.sender);
        if used >= self.quota_per_window {
            return Err(AdmissionError::QuotaExceeded);
        }
        // Project the expected nonce forward over already-queued txs so a
        // sender can queue several sequential transactions.
        let projection = self.projection(&tx.sender);
        proof {
            use_type_invariant(&self.lanes);
            lemma_counts_bounds(self@.queue, tx@.sender);
        }
        if let Some(account) = state.account(&tx.sender) {
            let expected_nonce: u64 = account.nonce + projection.queued;
            if tx.nonce != expected_nonce {
                return Err(
                    AdmissionError::Invalid(
                        TxError::BadNonce { expected: expected_nonce, got: tx.nonce },
                    ),
                );
            }
            // Project the spendable balance over queued transfers, so a
            // sender cannot queue more outflow than it holds.
            if let TransactionKind::Transfer { amount, .. } = &tx.kind {
                let spendable: u64 = if account.balance < projection.outflow {
                    0
                } else {
                    account.balance - projection.outflow
                };
                if *amount > spendable {
                    return Err(
                        AdmissionError::Invalid(
                            TxError::InsufficientBalance { have: spendable, need: *amount },
                        ),
                    );
                }
            }
        }
        if projection.queued == 0 {
            // Head-of-line: full stateful validation (auth, access, funds).
            if let Err(e) = state.validate(&tx) {
                return Err(AdmissionError::Invalid(e));
            }
        }
        let ghost views = transaction::tx_views(self.lanes.queue@);
        let mut lanes = Lanes::empty();
        std::mem::swap(&mut lanes, &mut self.lanes);
        let Lanes { mut queue, mut pending, mut per_sender, mut usage } = lanes;
        let ghost before = per_sender@;
        let ghost used_before = usage@;
        usage.insert(tx.sender.0.0, used + 1);
        track(&mut pending, &mut per_sender, &tx);
        let ghost v = tx@;
        let ghost txs = queue@;
        let ghost t = tx;
        queue.push(tx);
        proof {
            lemma_views_push(txs, t);
            lemma_one_more_push(views, v);
            lemma_sync_track(before, per_sender@, views, views.push(v), v);
            assert(usage_view(usage@) =~= usage_view(used_before).insert(
                v.sender,
                (used + 1) as u32,
            ));
        }
        self.lanes = Lanes { queue, pending, per_sender, usage };
        proof {
            assert(self@ =~= old(self)@.admitted(v));
            if old(self)@.tidy() {
                law_admission_keeps_ids_tidy(old(self)@, v, state@);
            }
        }
        Ok(())
    }

    /// What the sender has queued.
    fn projection(&self, sender: &AccountId) -> (p: SenderProjection)
        ensures
            p.queued == queued_by(self@.queue, *sender),
            p.outflow == outflow_by(self@.queue, *sender),
    {
        let p: SenderProjection = match self.lanes.per_sender.get(&sender.0.0) {
            Some(p) => *p,
            None => SenderProjection { queued: 0, outflow: 0 },
        };
        proof {
            use_type_invariant(&self.lanes);
            assert(queued_by(self@.queue, *sender) == p.queued);
        }
        p
    }

    /// Whether a submission can be projected (see [`Mempool::submit`]).
    pub fn can_consider(&self, tx: &Transaction, state: &State) -> (ok: bool)
        ensures
            ok == self@.considers(tx@, state@),
    {
        if State::check_limits(tx).is_err() || self.lanes.queue.len() >= self.max_pending {
            return true;
        }
        let id = tx.id();
        if self.lanes.pending.contains_key(&id.0) || self.usage_of(&tx.sender)
            >= self.quota_per_window {
            return true;
        }
        let p = self.projection(&tx.sender);
        match state.account(&tx.sender) {
            Some(account) => account.nonce <= u64::MAX - p.queued,
            None => outflow_of(tx) <= u64::MAX - p.outflow,
        }
    }

    /// Free-lane transactions of a sender in the current window.
    fn usage_of(&self, sender: &AccountId) -> (used: u32)
        ensures
            used == self@.used(*sender),
    {
        match self.lanes.usage.get(&sender.0.0) {
            Some(n) => *n,
            None => 0,
        }
    }

    /// Submit a transaction if it can be projected; otherwise leave the pool as
    /// it is.
    pub fn try_submit(&mut self, tx: Transaction, state: &State) -> (r: Option<
        Result<(), AdmissionError>,
    >)
        ensures
            match r {
                Some(admitted) => {
                    &&& old(self)@.considers(tx@, state@)
                    &&& admitted == old(self)@.admission(tx@, state@)
                    &&& final(self)@ == if admitted is Ok {
                        old(self)@.admitted(tx@)
                    } else {
                        old(self)@
                    }
                },
                None => !old(self)@.considers(tx@, state@) && final(self)@ == old(self)@,
            },
            old(self)@.tidy() ==> final(self)@.tidy(),
    {
        if self.can_consider(&tx, state) {
            Some(self.submit(tx, state))
        } else {
            None
        }
    }

    /// What a sender would have queued to spend with a batch back in front;
    /// nothing if it does not fit 64 bits.
    fn outflow_with(&self, batch: &Vec<Transaction>, sender: &AccountId) -> (sum: Option<u64>)
        ensures
            ({
                let all = transaction::tx_views(batch@) + self@.queue;
                match sum {
                    Some(n) => n == outflow_by(all, *sender),
                    None => outflow_by(all, *sender) > u64::MAX,
                }
            }),
    {
        let ghost views = transaction::tx_views(batch@);
        let mut sum: u64 = self.projection(sender).outflow;
        let mut i: usize = 0;
        proof {
            lemma_counts_concat(views, self@.queue, *sender);
        }
        while i < batch.len()
            invariant
                i <= batch@.len(),
                views == transaction::tx_views(batch@),
                outflow_by(views + self@.queue, *sender) == outflow_by(views, *sender) + outflow_by(
                    self@.queue,
                    *sender,
                ),
                sum == outflow_by(views.take(i as int), *sender) + outflow_by(
                    self@.queue,
                    *sender,
                ),
            decreases batch@.len() - i,
        {
            proof {
                assert(views.take(i + 1).drop_last() =~= views.take(i as int));
                assert(views.take(i + 1).last() == batch@[i as int]@);
                assert(views =~= views.take(i + 1) + views.skip(i + 1));
                lemma_counts_concat(views.take(i + 1), views.skip(i + 1), *sender);
                lemma_counts_bounds(views.skip(i + 1), *sender);
            }
            if batch[i].sender == *sender {
                match sum.checked_add(outflow_of(&batch[i])) {
                    Some(n) => {
                        sum = n;
                    },
                    None => {
                        return None;
                    },
                }
            }
            i += 1;
        }
        assert(views.take(i as int) =~= views);
        Some(sum)
    }

    /// Whether a batch can go back in front (see [`Mempool::requeue_front`]).
    pub fn can_requeue(&self, batch: &Vec<Transaction>) -> (ok: bool)
        ensures
            ok == self@.takes_back(transaction::tx_views(batch@)),
    {
        let ghost views = transaction::tx_views(batch@);
        let ghost all = views + self@.queue;
        if batch.len() > usize::MAX - self.lanes.queue.len() {
            return false;
        }
        let mut i: usize = 0;
        while i < batch.len()
            invariant
                i <= batch@.len(),
                views == transaction::tx_views(batch@),
                all == views + self@.queue,
                forall|j: int|
                    0 <= j < i ==> outflow_by(all, (#[trigger] views[j]).sender) <= u64::MAX,
            decreases batch@.len() - i,
        {
            assert(views[i as int] == batch@[i as int]@);
            if self.outflow_with(batch, &batch[i].sender).is_none() {
                return false;
            }
            i += 1;
        }
        proof {
            use_type_invariant(&self.lanes);
            assert forall|id: AccountId| #[trigger] outflow_by(all, id) <= u64::MAX by {
                lemma_counts_concat(views, self@.queue, id);
                if forall|j: int| 0 <= j < views.len() ==> (#[trigger] views[j]).sender != id {
                    lemma_no_outflow(views, id);
                    assert(outflow_by(self@.queue, id) <= u64::MAX);
                }
            }
        }
        true
    }

    /// Take up to `max` transactions for the next block proposal.
    pub fn take_batch(&mut self, max: usize) -> (batch: Vec<Transaction>)
        ensures
            transaction::tx_views(batch@) == old(self)@.queue.take(
                at_most(max, old(self)@.queue.len()) as int,
            ),
            final(self)@ == old(self)@.drained(at_most(max, old(self)@.queue.len()) as int),
            final(self)@.takes_back(transaction::tx_views(batch@)),
            old(self)@.tidy() ==> final(self)@.tidy(),
    {
        let ghost views = self@.queue;
        let ghost pending_before = self@.pending;
        let mut lanes = Lanes::empty();
        proof {
            use_type_invariant(&self.lanes);
            assert forall|id: AccountId| #[trigger] outflow_by(views, id) <= u64::MAX by {
                assert(outflow_by(transaction::tx_views(self.lanes.queue@), id) == outflow_by(
                    views,
                    id,
                ));
            }
        }
        std::mem::swap(&mut lanes, &mut self.lanes);
        let Lanes { mut queue, mut pending, mut per_sender, usage } = lanes;
        let total: usize = queue.len();
        assert(total == views.len());
        let n: usize = if max <= total {
            max
        } else {
            total
        };
        let rest = queue.split_off(n);
        let ghost batch_views = transaction::tx_views(queue@);
        let ghost rest_views = transaction::tx_views(rest@);
        proof {
            assert(batch_views =~= views.take(n as int));
            assert(rest_views =~= views.skip(n as int));
            assert(batch_views.skip(0) + rest_views =~= views);
            assert(batch_views.take(0) =~= Seq::<TxView>::empty());
        }
        let mut i: usize = 0;
        while i < queue.len()
            invariant
                i <= queue@.len(),
                batch_views == transaction::tx_views(queue@),
                in_sync(per_sender@, batch_views.skip(i as int) + rest_views),
                id_set(pending@) == without_ids(pending_before, batch_views.take(i as int)),
            decreases queue@.len() - i,
        {
            let ghost before = per_sender@;
            let ghost tx = batch_views[i as int];
            let ghost more = batch_views.skip(i as int) + rest_views;
            let ghost fewer = batch_views.skip(i + 1) + rest_views;
            proof {
                assert(more =~= seq![tx] + fewer);
                lemma_one_more_front(fewer, tx);
                lemma_can_untrack(before, more, fewer, tx);
            }
            untrack(&mut pending, &mut per_sender, &queue[i]);
            proof {
                lemma_sync_untrack(before, per_sender@, fewer, more, tx);
                assert(batch_views.take(i + 1).drop_last() =~= batch_views.take(i as int));
            }
            i += 1;
        }
        proof {
            assert(batch_views.skip(i as int) + rest_views =~= rest_views);
            assert(batch_views.take(i as int) =~= batch_views);
        }
        self.lanes = Lanes { queue: rest, pending, per_sender, usage };
        proof {
            assert(self@ =~= old(self)@.drained(n as int));
            assert(batch_views + self@.queue =~= views);
            if old(self)@.tidy() {
                law_taking_keeps_ids_tidy(old(self)@, n as nat);
            }
        }
        queue
    }

    /// Select up to `max` transactions for the next block **fee-first**: at
    /// each step the pending head of the highest-`max_fee` sender is taken, so
    /// a richer tip jumps the line, yet each sender's transactions still leave
    /// in strict nonce order (see [`law_selection_keeps_sender_order`]). Ties
    /// break toward the earlier submission, so a uniform-fee mempool drains in
    /// exactly the FIFO order of [`Mempool::take_batch`] (see
    /// [`law_uniform_fees_are_fifo`]). What is not taken stays in its order (see
    /// [`law_priority_batch_splits_the_queue`]).
    pub fn take_priority_batch(&mut self, max: usize) -> (batch: Vec<Transaction>)
        ensures
            transaction::tx_views(batch@) == picked(
                old(self)@.queue,
                selection(old(self)@.queue, at_most(max, old(self)@.queue.len())),
            ),
            final(self)@ == old(self)@.skimmed(at_most(max, old(self)@.queue.len())),
            old(self)@.tidy() ==> final(self)@.tidy(),
    {
        let ghost views = self@.queue;
        let ghost pending_before = self@.pending;
        proof {
            use_type_invariant(&self.lanes);
        }
        let mut lanes = Lanes::empty();
        std::mem::swap(&mut lanes, &mut self.lanes);
        let Lanes { queue, mut pending, mut per_sender, usage } = lanes;
        let n: usize = if max <= queue.len() {
            max
        } else {
            queue.len()
        };
        let (chosen, selected) = select(&queue, n);
        let ghost positions = selection(views, n as nat);
        // Take the chosen ones out, in the order in which they were chosen.
        let mut batch: Vec<Transaction> = Vec::new();
        let mut k: usize = 0;
        proof {
            assert(positions.take(0) =~= Seq::<int>::empty());
            assert(positions.take(0).to_set() =~= Set::<int>::empty());
            lemma_left_over_none(views);
            assert(picked(views, positions).take(0) =~= Seq::<TxView>::empty());
            lemma_selection(views, n as nat);
        }
        while k < n
            invariant
                k <= n,
                n <= views.len(),
                views == transaction::tx_views(queue@),
                positions == selection(views, n as nat),
                positions.len() == n,
                chosen@.len() == n,
                forall|i: int| 0 <= i < n ==> #[trigger] chosen@[i] == positions[i],
                forall|i: int| 0 <= i < n ==> 0 <= #[trigger] positions[i] < views.len(),
                positions.no_duplicates(),
                transaction::tx_views(batch@) == picked(views, positions).take(k as int),
                in_sync(per_sender@, left_over(views, positions.take(k as int).to_set())),
                id_set(pending@) == without_ids(
                    pending_before,
                    picked(views, positions).take(k as int),
                ),
            decreases n - k,
        {
            let at: usize = chosen[k];
            let ghost before = per_sender@;
            let ghost tx = views[at as int];
            let ghost taken = positions.take(k as int).to_set();
            let ghost next = positions.take(k + 1).to_set();
            let ghost more = left_over(views, taken);
            let ghost fewer = left_over(views, next);
            proof {
                assert(!taken.contains(at as int)) by {
                    if positions.take(k as int).contains(at as int) {
                        let i = positions.take(k as int).index_of(at as int);
                        assert(positions[i] == positions[k as int]);
                    }
                }
                assert(next =~= taken.insert(at as int)) by {
                    lemma_take_set(positions, k as int);
                }
                lemma_left_over_step(views, taken, at as int);
                lemma_can_untrack(before, more, fewer, tx);
            }
            untrack(&mut pending, &mut per_sender, &queue[at]);
            let ghost batched = batch@;
            batch.push(queue[at].clone());
            proof {
                lemma_sync_untrack(before, per_sender@, fewer, more, tx);
                let p = picked(views, positions);
                assert(p.take(k + 1).drop_last() =~= p.take(k as int));
                assert(p.take(k + 1) =~= p.take(k as int).push(tx));
                assert(transaction::tx_views(batch@) =~= transaction::tx_views(batched).push(tx));
            }
            k += 1;
        }
        // Keep the unselected transactions in their original relative order.
        let mut rest: Vec<Transaction> = Vec::new();
        let mut i: usize = 0;
        let ghost taken = positions.to_set();
        proof {
            assert(positions.take(n as int) =~= positions);
            assert(picked(views, positions).take(n as int) =~= picked(views, positions));
            assert(views.take(0) =~= Seq::<TxView>::empty());
            assert(transaction::tx_views(rest@) =~= left_over(views.take(0), taken));
        }
        while i < queue.len()
            invariant
                i <= queue@.len(),
                views == transaction::tx_views(queue@),
                selected@.len() == queue@.len(),
                forall|j: int| 0 <= j < queue@.len() ==> #[trigger] selected@[j] == taken.contains(j),
                transaction::tx_views(rest@) == left_over(views.take(i as int), taken),
            decreases queue@.len() - i,
        {
            proof {
                assert(views.take(i + 1).drop_last() =~= views.take(i as int));
            }
            let ghost before = rest@;
            if !selected[i] {
                rest.push(queue[i].clone());
                assert(transaction::tx_views(rest@) =~= transaction::tx_views(before).push(
                    views[i as int],
                ));
            }
            i += 1;
        }
        proof {
            assert(views.take(i as int) =~= views);
        }
        self.lanes = Lanes { queue: rest, pending, per_sender, usage };
        proof {
            assert(self@ =~= old(self)@.skimmed(n as nat));
            if old(self)@.tidy() {
                law_taking_keeps_ids_tidy(old(self)@, n as nat);
            }
        }
        batch
    }

    /// Return a batch to the front of the queue in its original order, called
    /// when a consensus round fails to commit, so transactions are never
    /// silently dropped with the rejected proposal.
    pub fn requeue_front(&mut self, batch: Vec<Transaction>)
        requires
            old(self)@.takes_back(transaction::tx_views(batch@)),
        ensures
            final(self)@ == old(self)@.requeued(transaction::tx_views(batch@)),
            old(self)@.tidy() && ids_differ(transaction::tx_views(batch@), old(self)@.queue)
                ==> final(self)@.tidy(),
    {
        let ghost views = self@.queue;
        let ghost batch_views = transaction::tx_views(batch@);
        let ghost pending_before = self@.pending;
        proof {
            use_type_invariant(&self.lanes);
        }
        let mut lanes = Lanes::empty();
        std::mem::swap(&mut lanes, &mut self.lanes);
        let Lanes { mut queue, mut pending, mut per_sender, usage } = lanes;
        let mut i: usize = batch.len();
        proof {
            assert(batch_views.skip(i as int) + views =~= views);
        }
        while i > 0
            invariant
                i <= batch@.len(),
                batch_views == transaction::tx_views(batch@),
                batch@.len() + views.len() <= usize::MAX,
                forall|id: AccountId| #[trigger] outflow_by(batch_views + views, id) <= u64::MAX,
                in_sync(per_sender@, batch_views.skip(i as int) + views),
                id_set(pending@) == with_ids(pending_before, batch_views.skip(i as int)),
            decreases i,
        {
            let ghost fewer = batch_views.skip(i as int) + views;
            i -= 1;
            let ghost before = per_sender@;
            let ghost tx = batch_views[i as int];
            let ghost more = batch_views.skip(i as int) + views;
            proof {
                assert(more =~= seq![tx] + fewer);
                lemma_one_more_front(fewer, tx);
                lemma_counts_bounds(fewer, tx.sender);
                assert(queued_by(fewer, tx.sender) == aggregate(before, tx.sender).0);
                lemma_counts_one(tx, tx.sender);
                assert(queued_by(more, tx.sender) == queued_by(fewer, tx.sender) + queued_by(
                    seq![tx],
                    tx.sender,
                ));
                assert(batch_views + views =~= batch_views.take(i as int) + more);
                lemma_counts_concat(batch_views.take(i as int), more, tx.sender);
                lemma_counts_bounds(batch_views.take(i as int), tx.sender);
            }
            track(&mut pending, &mut per_sender, &batch[i]);
            proof {
                lemma_sync_track(before, per_sender@, fewer, more, tx);
                assert(batch_views.skip(i as int).drop_first() =~= batch_views.skip(i + 1));
            }
        }
        let ghost old_queue = queue@;
        let mut all = batch;
        all.append(&mut queue);
        proof {
            assert(batch_views.skip(0) + views =~= batch_views + views);
            assert(batch_views.skip(0) =~= batch_views);
            assert(transaction::tx_views(all@) =~= batch_views + views);
        }
        self.lanes = Lanes { queue: all, pending, per_sender, usage };
        proof {
            assert(self@ =~= old(self)@.requeued(batch_views));
            if old(self)@.tidy() && ids_differ(batch_views, views) {
                law_requeuing_keeps_ids_tidy(old(self)@, batch_views);
            }
        }
    }

    /// Reset free-lane quotas (called per block window).
    pub fn reset_window(&mut self)
        ensures
            final(self)@ == (MempoolView { usage: Map::empty(), ..old(self)@ }),
            old(self)@.tidy() ==> final(self)@.tidy(),
    {
        proof {
            use_type_invariant(&self.lanes);
        }
        let mut lanes = Lanes::empty();
        std::mem::swap(&mut lanes, &mut self.lanes);
        let Lanes { queue, pending, per_sender, .. } = lanes;
        let fresh: ByteMap<u32> = ByteMap::new();
        self.lanes = Lanes { queue, pending, per_sender, usage: fresh };
        assert(self@.usage =~= Map::<AccountId, u32>::empty());
    }
}

proof fn lemma_take_set(s: Seq<int>, k: int)
    requires
        0 <= k < s.len(),
    ensures
        s.take(k + 1).to_set() == s.take(k).to_set().insert(s[k]),
{
    let a = s.take(k);
    let b = s.take(k + 1);
    assert forall|x: int| b.contains(x) <==> a.contains(x) || x == s[k] by {
        if a.contains(x) {
            assert(b[a.index_of(x)] == x);
        }
        assert(b[k] == s[k]);
        if b.contains(x) {
            let i = b.index_of(x);
            if i < k {
                assert(a[i] == x);
            }
        }
    }
    assert(b.to_set() =~= a.to_set().insert(s[k]));
}

proof fn lemma_left_over_none(queue: Seq<TxView>)
    ensures
        left_over(queue, Set::empty()) == queue,
    decreases queue.len(),
{
    if queue.len() > 0 {
        lemma_left_over_none(queue.drop_last());
        assert(queue.drop_last().push(queue.last()) =~= queue);
    }
}

/// Taking one more transaction takes one out of what is left over.
proof fn lemma_left_over_step(queue: Seq<TxView>, taken: Set<int>, at: int)
    requires
        0 <= at < queue.len(),
        !taken.contains(at),
    ensures
        one_more(left_over(queue, taken), left_over(queue, taken.insert(at)), queue[at]),
    decreases queue.len(),
{
    let next = taken.insert(at);
    let rest = queue.drop_last();
    let last = queue.last();
    let n = queue.len() - 1;
    if at == n {
        lemma_left_over_same(rest, taken, at);
        lemma_one_more_push(left_over(rest, taken), last);
    } else {
        lemma_left_over_step(rest, taken, at);
        assert(rest[at] == queue[at]);
        if !taken.contains(n) {
            let a = left_over(rest, taken);
            let b = left_over(rest, next);
            lemma_one_more_push(a, last);
            lemma_one_more_push(b, last);
            assert forall|id: AccountId|
                #![trigger queued_by(a.push(last), id)]
                #![trigger queued_by(b.push(last), id)]
                queued_by(a.push(last), id) == queued_by(b.push(last), id) + queued_by(
                    seq![queue[at]],
                    id,
                ) && outflow_by(a.push(last), id) == outflow_by(b.push(last), id) + outflow_by(
                    seq![queue[at]],
                    id,
                ) by {
                assert(queued_by(a, id) == queued_by(b, id) + queued_by(seq![queue[at]], id));
                assert(queued_by(a.push(last), id) == queued_by(a, id) + queued_by(
                    seq![last],
                    id,
                ));
                assert(queued_by(b.push(last), id) == queued_by(b, id) + queued_by(
                    seq![last],
                    id,
                ));
            }
        }
    }
}

/// A position past the end makes no difference.
proof fn lemma_left_over_same(queue: Seq<TxView>, taken: Set<int>, at: int)
    requires
        at >= queue.len(),
    ensures
        left_over(queue, taken.insert(at)) == left_over(queue, taken),
    decreases queue.len(),
{
    if queue.len() > 0 {
        lemma_left_over_same(queue.drop_last(), taken, at);
    }
}

/// Whether the taken positions leave no gap within a sender.
spec fn gapless(queue: Seq<TxView>, taken: Set<int>) -> bool {
    forall|i: int, j: int|
        #![trigger queue[i], queue[j]]
        0 <= j < i < queue.len() && taken.contains(i) && queue[j].sender == queue[i].sender
            ==> taken.contains(j)
}

/// Whether `b` goes before every other head among the first `c` positions.
spec fn best_of(queue: Seq<TxView>, taken: Set<int>, c: int, b: int) -> bool {
    &&& 0 <= b < c
    &&& is_head(queue, taken, b)
    &&& forall|j: int| #[trigger]
        is_head(queue, taken, j) && j < c && j != b ==> outbids(queue, b, j)
}

proof fn lemma_best_exists(queue: Seq<TxView>, taken: Set<int>, c: int)
    requires
        0 <= c <= queue.len(),
    ensures
        (forall|j: int| 0 <= j < c ==> taken.contains(j)) || exists|b: int|
            best_of(queue, taken, c, b),
    decreases c,
{
    if c > 0 {
        lemma_best_exists(queue, taken, c - 1);
        let i = c - 1;
        if forall|j: int| 0 <= j < i ==> taken.contains(j) {
            if !taken.contains(i) {
                assert(is_head(queue, taken, i));
                assert(best_of(queue, taken, c, i));
            }
        } else {
            let b = choose|b: int| best_of(queue, taken, i, b);
            assert(best_of(queue, taken, i, b));
            if is_head(queue, taken, i) && queue[i].max_fee > queue[b].max_fee {
                assert(best_of(queue, taken, c, i));
            } else {
                assert(best_of(queue, taken, c, b));
            }
        }
    }
}

/// Fewer positions than transactions leave one out.
proof fn lemma_not_all_taken(len: nat, positions: Seq<int>)
    requires
        positions.len() < len,
    ensures
        exists|j: int| 0 <= j < len && !positions.to_set().contains(j),
{
    let taken = positions.to_set();
    if forall|j: int| 0 <= j < len ==> taken.contains(j) {
        let all = vstd::set_lib::set_int_range(0, len as int);
        vstd::set_lib::lemma_int_range(0, len as int);
        positions.lemma_cardinality_of_set();
        vstd::seq_lib::seq_to_set_is_finite(positions);
        assert(all.subset_of(taken));
        vstd::set_lib::lemma_len_subset(all, taken);
    }
}

proof fn lemma_best_unique(queue: Seq<TxView>, taken: Set<int>, a: int, b: int)
    requires
        is_best(queue, taken, a),
        is_best(queue, taken, b),
    ensures
        a == b,
{
}

/// A selection is made of that many different positions, and takes the
/// transactions of a sender without a gap.
proof fn lemma_selection(queue: Seq<TxView>, k: nat)
    requires
        k <= queue.len(),
    ensures
        selection(queue, k).len() == k,
        forall|i: int| 0 <= i < k ==> 0 <= #[trigger] selection(queue, k)[i] < queue.len(),
        selection(queue, k).no_duplicates(),
        gapless(queue, selection(queue, k).to_set()),
        k > 0 ==> is_best(
            queue,
            selection(queue, (k - 1) as nat).to_set(),
            selection(queue, k)[k - 1],
        ),
    decreases k,
{
    let s = selection(queue, k);
    if k > 0 {
        let before = selection(queue, (k - 1) as nat);
        let taken = before.to_set();
        lemma_selection(queue, (k - 1) as nat);
        lemma_not_all_taken(queue.len(), before);
        lemma_best_exists(queue, taken, queue.len() as int);
        let b = choose|b: int| best_of(queue, taken, queue.len() as int, b);
        assert(is_best(queue, taken, b));
        let i = choose|i: int| is_best(queue, taken, i);
        assert(s == before.push(i));
        assert(s.take(k - 1) =~= before);
        assert(s.take(k as int) =~= s);
        lemma_take_set(s, k - 1);
        assert(s.to_set() == taken.insert(i));
        assert(s.no_duplicates()) by {
            assert(!taken.contains(i));
            assert forall|a: int, b: int| 0 <= a < b < s.len() implies s[a] != s[b] by {
                if b == k - 1 {
                    assert(before[a] == s[a]);
                    assert(taken.contains(before[a]));
                } else {
                    assert(before[a] != before[b]);
                }
            }
        }
        assert forall|j: int| 0 <= j < k implies 0 <= #[trigger] s[j] < queue.len() by {
            if j < k - 1 {
                assert(before[j] == s[j]);
            }
        }
    } else {
        assert(s.to_set() =~= Set::<int>::empty());
    }
}

/// The position of the latest earlier transaction of the same sender.
spec fn predecessor(queue: Seq<TxView>, i: int, p: Option<usize>) -> bool {
    match p {
        Some(p) => {
            &&& 0 <= p < i
            &&& queue[p as int].sender == queue[i].sender
            &&& forall|j: int| p < j < i ==> (#[trigger] queue[j]).sender != queue[i].sender
        },
        None => forall|j: int| 0 <= j < i ==> (#[trigger] queue[j]).sender != queue[i].sender,
    }
}

/// For every transaction, the latest earlier one of the same sender.
fn predecessors(queue: &Vec<Transaction>) -> (prev: Vec<Option<usize>>)
    ensures
        prev@.len() == queue@.len(),
        forall|i: int|
            0 <= i < queue@.len() ==> predecessor(
                transaction::tx_views(queue@),
                i,
                #[trigger] prev@[i],
            ),
{
    let ghost views = transaction::tx_views(queue@);
    let mut last: ByteMap<usize> = ByteMap::new();
    let mut prev: Vec<Option<usize>> = Vec::new();
    let mut i: usize = 0;
    while i < queue.len()
        invariant
            i <= queue@.len(),
            views == transaction::tx_views(queue@),
            prev@.len() == i,
            forall|j: int| 0 <= j < i ==> predecessor(views, j, #[trigger] prev@[j]),
            forall|k: Key| #[trigger]
                last@.contains_key(k) ==> {
                    let p = last@[k] as int;
                    &&& 0 <= p < i
                    &&& views[p].sender.0.0 == k
                    &&& forall|j: int| p < j < i ==> (#[trigger] views[j]).sender.0.0 != k
                },
            forall|j: int| 0 <= j < i ==> last@.contains_key((#[trigger] views[j]).sender.0.0),
        decreases queue@.len() - i,
    {
        let key = queue[i].sender.0.0;
        let p: Option<usize> = match last.get(&key) {
            Some(p) => Some(*p),
            None => None,
        };
        proof {
            assert(views[i as int].sender.0.0 == key);
            assert forall|j: int|
                0 <= j < i && (#[trigger] views[j]).sender == views[i as int].sender implies
                views[j].sender.0.0
                == key by {}
            assert(predecessor(views, i as int, p));
        }
        prev.push(p);
        last.insert(key, i);
        i += 1;
    }
    prev
}

/// Chooses `n` positions by fee; also says of each position whether it was
/// chosen.
fn select(queue: &Vec<Transaction>, n: usize) -> (r: (Vec<usize>, Vec<bool>))
    requires
        n <= queue@.len(),
    ensures
        r.0@.len() == n,
        forall|i: int|
            0 <= i < n ==> #[trigger] r.0@[i] == selection(
                transaction::tx_views(queue@),
                n as nat,
            )[i],
        r.1@.len() == queue@.len(),
        forall|j: int|
            0 <= j < queue@.len() ==> #[trigger] r.1@[j] == selection(
                transaction::tx_views(queue@),
                n as nat,
            ).to_set().contains(j),
{
    let ghost views = transaction::tx_views(queue@);
    let prev = predecessors(queue);
    let mut selected: Vec<bool> = Vec::new();
    let mut i: usize = 0;
    while i < queue.len()
        invariant
            i <= queue@.len(),
            selected@.len() == i,
            forall|j: int| 0 <= j < i ==> !(#[trigger] selected@[j]),
        decreases queue@.len() - i,
    {
        selected.push(false);
        i += 1;
    }
    let mut chosen: Vec<usize> = Vec::new();
    let mut k: usize = 0;
    assert(selection(views, 0).to_set() =~= Set::<int>::empty());
    while k < n
        invariant
            k <= n <= queue@.len(),
            views == transaction::tx_views(queue@),
            prev@.len() == queue@.len(),
            forall|i: int|
                0 <= i < queue@.len() ==> predecessor(views, i, #[trigger] prev@[i]),
            chosen@.len() == k,
            forall|i: int| 0 <= i < k ==> #[trigger] chosen@[i] == selection(views, k as nat)[i],
            selected@.len() == queue@.len(),
            forall|j: int|
                0 <= j < queue@.len() ==> #[trigger] selected@[j] == selection(
                    views,
                    k as nat,
                ).to_set().contains(j),
        decreases n - k,
    {
        let ghost before = selection(views, k as nat);
        let ghost taken = before.to_set();
        proof {
            lemma_selection(views, k as nat);
            lemma_selection(views, (k + 1) as nat);
        }
        let best: usize = find_best(queue, &prev, &selected, Ghost(views), Ghost(before));
        proof {
            let after = selection(views, (k + 1) as nat);
            lemma_best_unique(views, taken, best as int, after[k as int]);
            assert(after == before.push(best as int));
            assert(after.take(k as int) =~= before);
            assert(after.take(k + 1) =~= after);
            lemma_take_set(after, k as int);
        }
        selected[best] = true;
        chosen.push(best);
        k += 1;
    }
    (chosen, selected)
}

/// The highest-fee pending head, the earliest on a tie.
fn find_best(
    queue: &Vec<Transaction>,
    prev: &Vec<Option<usize>>,
    selected: &Vec<bool>,
    views: Ghost<Seq<TxView>>,
    positions: Ghost<Seq<int>>,
) -> (best: usize)
    requires
        views@ == transaction::tx_views(queue@),
        prev@.len() == queue@.len(),
        forall|i: int| 0 <= i < queue@.len() ==> predecessor(views@, i, #[trigger] prev@[i]),
        selected@.len() == queue@.len(),
        forall|j: int|
            0 <= j < queue@.len() ==> #[trigger] selected@[j] == positions@.to_set().contains(j),
        gapless(views@, positions@.to_set()),
        positions@.len() < queue@.len(),
    ensures
        best < queue@.len(),
        is_best(views@, positions@.to_set(), best as int),
{
    let ghost taken = positions@.to_set();
    let mut best: Option<usize> = None;
    let mut i: usize = 0;
    while i < queue.len()
        invariant
            i <= queue@.len(),
            views@ == transaction::tx_views(queue@),
            prev@.len() == queue@.len(),
            forall|i: int| 0 <= i < queue@.len() ==> predecessor(views@, i, #[trigger] prev@[i]),
            selected@.len() == queue@.len(),
            taken == positions@.to_set(),
            forall|j: int|
                0 <= j < queue@.len() ==> #[trigger] selected@[j] == taken.contains(j),
            gapless(views@, taken),
            best is None ==> forall|j: int| 0 <= j < i ==> taken.contains(j),
            best matches Some(b) ==> best_of(views@, taken, i as int, b as int),
        decreases queue@.len() - i,
    {
        let open: bool = match prev[i] {
            Some(p) => selected[p],
            None => true,
        };
        proof {
            if !taken.contains(i as int) {
                lemma_head_test(views@, taken, i as int, prev@[i as int]);
            }
        }
        if !selected[i] && open {
            let wins: bool = match best {
                Some(b) => queue[i].max_fee > queue[b].max_fee,
                None => true,
            };
            if wins {
                best = Some(i);
            }
        }
        i += 1;
    }
    proof {
        lemma_not_all_taken(queue@.len(), positions@);
    }
    match best {
        Some(b) => b,
        None => 0,
    }
}

/// A transaction that is not taken is its sender's head if the one before it
/// is taken, or there is none.
proof fn lemma_head_test(queue: Seq<TxView>, taken: Set<int>, i: int, p: Option<usize>)
    requires
        0 <= i < queue.len(),
        !taken.contains(i),
        predecessor(queue, i, p),
        gapless(queue, taken),
    ensures
        is_head(queue, taken, i) == match p {
            Some(p) => taken.contains(p as int),
            None => true,
        },
{
    if let Some(p) = p {
        let p = p as int;
        if taken.contains(p) {
            assert forall|j: int|
                0 <= j < i && (#[trigger] queue[j]).sender == queue[i].sender implies taken.contains(
                j,
            ) by {
                if j < p {
                    assert(queue[j].sender == queue[p].sender);
                }
            }
        } else {
            assert(queue[p].sender == queue[i].sender);
        }
    }
}

/// Fee-first selection keeps every sender's own order, and never takes a
/// transaction while an earlier one of the same sender is left behind.
pub proof fn law_selection_keeps_sender_order(queue: Seq<TxView>, k: nat, a: int, b: int)
    requires
        k <= queue.len(),
        0 <= a < queue.len(),
        0 <= b < k,
        queue[a].sender == queue[selection(queue, k)[b]].sender,
        a < selection(queue, k)[b],
    ensures
        exists|c: int| 0 <= c < b && selection(queue, k)[c] == a,
    decreases k,
{
    lemma_selection(queue, k);
    let s = selection(queue, k);
    let before = selection(queue, (k - 1) as nat);
    lemma_selection(queue, (k - 1) as nat);
    if b == k - 1 {
        assert(is_head(queue, before.to_set(), s[b]));
        assert(before.to_set().contains(a));
        let c = before.index_of(a);
        assert(s[c] == before[c]);
    } else {
        assert(s[b] == before[b]);
        law_selection_keeps_sender_order(queue, (k - 1) as nat, a, b);
        let c = choose|c: int| 0 <= c < b && before[c] == a;
        assert(s[c] == a);
    }
}

/// At each step of the selection, no sender's next transaction offers more
/// than the one that is taken.
pub proof fn law_selection_is_fee_first(queue: Seq<TxView>, k: nat, j: int)
    requires
        0 < k <= queue.len(),
        is_head(queue, selection(queue, (k - 1) as nat).to_set(), j),
    ensures
        queue[j].max_fee <= queue[selection(queue, k)[k - 1]].max_fee,
{
    lemma_selection(queue, k);
}

/// With one fee for all, the selection is first come, first served.
pub proof fn law_uniform_fees_are_fifo(queue: Seq<TxView>, k: nat)
    requires
        k <= queue.len(),
        forall|i: int, j: int|
            0 <= i < queue.len() && 0 <= j < queue.len() ==> (#[trigger] queue[i]).max_fee == (
            #[trigger] queue[j]).max_fee,
    ensures
        selection(queue, k) == Seq::new(k, |i: int| i),
        picked(queue, selection(queue, k)) == queue.take(k as int),
    decreases k,
{
    let s = selection(queue, k);
    if k > 0 {
        let p = (k - 1) as nat;
        law_uniform_fees_are_fifo(queue, p);
        lemma_selection(queue, k);
        let before = selection(queue, p);
        let taken = before.to_set();
        assert(s[k - 1] == p) by {
            assert(taken =~= Set::new(|i: int| 0 <= i < p)) by {
                assert forall|i: int| taken.contains(i) <==> 0 <= i < p by {
                    if 0 <= i < p {
                        assert(before[i] == i);
                    }
                }
            }
            assert(is_head(queue, taken, p as int));
            if s[k - 1] != p {
                assert(outbids(queue, s[k - 1], p as int));
            }
        }
        assert forall|i: int| 0 <= i < k implies s[i] == i by {
            if i < k - 1 {
                assert(s[i] == before[i]);
            }
        }
    }
    assert(s =~= Seq::new(k, |i: int| i));
    assert(picked(queue, s) =~= queue.take(k as int));
}

proof fn lemma_without_then_with(pending: Set<hash::Hash>, batch: Seq<TxView>)
    requires
        forall|i: int| 0 <= i < batch.len() ==> pending.contains((#[trigger] batch[i]).id()),
    ensures
        with_ids(without_ids(pending, batch), batch) == pending,
{
    assert forall|h: hash::Hash| with_ids(without_ids(pending, batch), batch).contains(h)
        <==> pending.contains(h) by {
        lemma_with_ids(without_ids(pending, batch), batch, h);
        lemma_without_ids(pending, batch, h);
    }
    assert(with_ids(without_ids(pending, batch), batch) =~= pending);
}

proof fn lemma_with_ids(pending: Set<hash::Hash>, batch: Seq<TxView>, h: hash::Hash)
    ensures
        with_ids(pending, batch).contains(h) <==> pending.contains(h) || exists|i: int|
            0 <= i < batch.len() && (#[trigger] batch[i]).id() == h,
    decreases batch.len(),
{
    if batch.len() > 0 {
        let rest = batch.drop_first();
        lemma_with_ids(pending, rest, h);
        if exists|i: int| 0 <= i < rest.len() && (#[trigger] rest[i]).id() == h {
            let i = choose|i: int| 0 <= i < rest.len() && (#[trigger] rest[i]).id() == h;
            assert(batch[i + 1].id() == h);
        }
        if exists|i: int| 0 <= i < batch.len() && (#[trigger] batch[i]).id() == h {
            let i = choose|i: int| 0 <= i < batch.len() && (#[trigger] batch[i]).id() == h;
            if i > 0 {
                assert(rest[i - 1].id() == h);
            }
        }
    }
}

proof fn lemma_without_ids(pending: Set<hash::Hash>, batch: Seq<TxView>, h: hash::Hash)
    ensures
        without_ids(pending, batch).contains(h) <==> pending.contains(h) && !exists|i: int|
            0 <= i < batch.len() && (#[trigger] batch[i]).id() == h,
    decreases batch.len(),
{
    if batch.len() > 0 {
        let rest = batch.drop_last();
        lemma_without_ids(pending, rest, h);
        if exists|i: int| 0 <= i < rest.len() && (#[trigger] rest[i]).id() == h {
            let i = choose|i: int| 0 <= i < rest.len() && (#[trigger] rest[i]).id() == h;
            assert(batch[i].id() == h);
        }
        if exists|i: int| 0 <= i < batch.len() && (#[trigger] batch[i]).id() == h {
            let i = choose|i: int| 0 <= i < batch.len() && (#[trigger] batch[i]).id() == h;
            if i < rest.len() {
                assert(rest[i].id() == h);
            }
        }
    }
}

/// Admission keeps the pending ids those of the queue.
pub proof fn law_admission_keeps_ids_tidy(pool: MempoolView, tx: TxView, s: StateView)
    requires
        pool.tidy(),
        pool.admission(tx, s) is Ok,
    ensures
        pool.admitted(tx).tidy(),
{
    let after = pool.admitted(tx);
    let n = pool.queue.len() as int;
    assert(after.queue[n] == tx);
    assert forall|i: int, j: int| 0 <= i < j < after.queue.len() implies (
    #[trigger] after.queue[i]).id() != (#[trigger] after.queue[j]).id() by {
        assert(after.queue[i] == pool.queue[i]);
        if j == n {
            assert(holds_id(pool.queue, pool.queue[i].id()));
        }
    }
    assert forall|h: hash::Hash| #[trigger] after.pending.contains(h) <==> holds_id(
        after.queue,
        h,
    ) by {
        assert(pool.pending.contains(h) <==> holds_id(pool.queue, h));
        if holds_id(pool.queue, h) {
            let i = choose|i: int| 0 <= i < n && (#[trigger] pool.queue[i]).id() == h;
            assert(after.queue[i].id() == h);
        }
        if holds_id(after.queue, h) {
            let i = choose|i: int| 0 <= i <= n && (#[trigger] after.queue[i]).id() == h;
            if i < n {
                assert(pool.queue[i].id() == h);
            }
        }
    }
}

/// What is left over holds the ids of the positions that were not taken.
proof fn lemma_left_over_ids(queue: Seq<TxView>, taken: Set<int>, h: hash::Hash)
    ensures
        holds_id(left_over(queue, taken), h) <==> exists|i: int|
            0 <= i < queue.len() && !taken.contains(i) && (#[trigger] queue[i]).id() == h,
    decreases queue.len(),
{
    if queue.len() > 0 {
        let rest = queue.drop_last();
        let before = left_over(rest, taken);
        let after = left_over(queue, taken);
        let last = queue.len() - 1;
        lemma_left_over_ids(rest, taken, h);
        if taken.contains(last) {
            assert(after == before);
        } else {
            assert(after == before.push(queue[last]));
        }
        if holds_id(after, h) {
            let k = choose|k: int| 0 <= k < after.len() && (#[trigger] after[k]).id() == h;
            if k < before.len() {
                assert(before[k] == after[k]);
                assert(before[k].id() == h);
                assert(holds_id(before, h));
                let i = choose|i: int|
                    0 <= i < rest.len() && !taken.contains(i) && (#[trigger] rest[i]).id() == h;
                assert(queue[i] == rest[i]);
                assert(queue[i].id() == h);
            } else {
                assert(!taken.contains(last));
                assert(queue[last].id() == h);
            }
        }
        if exists|i: int|
            0 <= i < queue.len() && !taken.contains(i) && (#[trigger] queue[i]).id() == h {
            let i = choose|i: int|
                0 <= i < queue.len() && !taken.contains(i) && (#[trigger] queue[i]).id() == h;
            if i < last {
                assert(rest[i] == queue[i]);
                assert(rest[i].id() == h);
                assert(holds_id(before, h));
                let k = choose|k: int| 0 <= k < before.len() && (#[trigger] before[k]).id() == h;
                assert(after[k] == before[k]);
                assert(after[k].id() == h);
            } else {
                assert(after[before.len() as int].id() == h);
            }
            assert(holds_id(after, h));
        }
    }
}

proof fn lemma_left_over_differs(queue: Seq<TxView>, taken: Set<int>)
    requires
        forall|i: int, j: int|
            0 <= i < j < queue.len() ==> (#[trigger] queue[i]).id() != (#[trigger] queue[j]).id(),
    ensures
        forall|i: int, j: int|
            0 <= i < j < left_over(queue, taken).len() ==> (#[trigger] left_over(
                queue,
                taken,
            )[i]).id() != (#[trigger] left_over(queue, taken)[j]).id(),
    decreases queue.len(),
{
    if queue.len() > 0 {
        let rest = queue.drop_last();
        let before = left_over(rest, taken);
        let after = left_over(queue, taken);
        let last = queue.len() - 1;
        assert forall|i: int, j: int| 0 <= i < j < rest.len() implies (#[trigger] rest[i]).id() != (
        #[trigger] rest[j]).id() by {
            assert(queue[i].id() != queue[j].id());
        }
        lemma_left_over_differs(rest, taken);
        lemma_left_over_ids(rest, taken, queue[last].id());
        assert forall|i: int, j: int| 0 <= i < j < after.len() implies (#[trigger] after[i]).id()
            != (#[trigger] after[j]).id() by {
            assert(after[i] == before[i]);
            if j < before.len() {
                assert(after[j] == before[j]);
            } else if before[i].id() == queue[last].id() {
                assert(holds_id(before, queue[last].id()));
                let k = choose|k: int|
                    0 <= k < rest.len() && !taken.contains(k) && (#[trigger] rest[k]).id()
                        == queue[last].id();
                assert(queue[k].id() != queue[last].id());
            }
        }
    }
}

/// What is left over depends on the positions of the queue alone.
proof fn lemma_left_over_local(queue: Seq<TxView>, a: Set<int>, b: Set<int>)
    requires
        forall|i: int| 0 <= i < queue.len() ==> (#[trigger] a.contains(i) <==> b.contains(i)),
    ensures
        left_over(queue, a) == left_over(queue, b),
    decreases queue.len(),
{
    if queue.len() > 0 {
        lemma_left_over_local(queue.drop_last(), a, b);
        assert(a.contains(queue.len() - 1) <==> b.contains(queue.len() - 1));
    }
}

/// Where nothing is taken, all is left over.
proof fn lemma_all_left_over(queue: Seq<TxView>)
    ensures
        left_over(queue, Set::empty()) == queue,
    decreases queue.len(),
{
    if queue.len() > 0 {
        lemma_all_left_over(queue.drop_last());
        assert(queue.drop_last().push(queue.last()) =~= queue);
    }
}

/// Taking one more position takes its transaction from what is left over.
proof fn lemma_one_less_left_over(queue: Seq<TxView>, taken: Set<int>, i: int)
    requires
        0 <= i < queue.len(),
        !taken.contains(i),
    ensures
        left_over(queue, taken).len() == left_over(queue, taken.insert(i)).len() + 1,
        left_over(queue, taken).to_multiset() == left_over(
            queue,
            taken.insert(i),
        ).to_multiset().insert(queue[i]),
    decreases queue.len(),
{
    broadcast use vstd::seq_lib::group_to_multiset_ensures;

    let rest = queue.drop_last();
    let last = queue.len() - 1;
    let more = left_over(rest, taken);
    let less = left_over(rest, taken.insert(i));
    if i == last {
        lemma_left_over_local(rest, taken, taken.insert(i));
    } else {
        lemma_one_less_left_over(rest, taken, i);
        if !taken.contains(last) {
            assert(less.push(queue.last()).to_multiset().insert(queue[i])
                =~= less.to_multiset().insert(queue[i]).insert(queue.last()));
        }
    }
}

/// A priority batch takes distinct positions of the queue, and together with
/// what stays behind it makes up the queue: no transaction is lost, and none
/// is taken twice.
pub proof fn law_priority_batch_splits_the_queue(queue: Seq<TxView>, n: nat)
    requires
        n <= queue.len(),
    ensures
        ({
            let positions = selection(queue, n);
            let batch = picked(queue, positions);
            let rest = left_over(queue, positions.to_set());
            &&& positions.no_duplicates()
            &&& forall|i: int|
                0 <= i < positions.len() ==> 0 <= #[trigger] positions[i] < queue.len()
            &&& batch.len() == n
            &&& batch.len() + rest.len() == queue.len()
            &&& (batch + rest).to_multiset() == queue.to_multiset()
        }),
    decreases n,
{
    broadcast use vstd::seq_lib::group_to_multiset_ensures;

    let positions = selection(queue, n);
    let batch = picked(queue, positions);
    let rest = left_over(queue, positions.to_set());
    lemma_selection(queue, n);
    if n == 0 {
        assert(positions.to_set() =~= Set::<int>::empty());
        lemma_all_left_over(queue);
        assert(batch + rest =~= queue);
    } else {
        let before = selection(queue, (n - 1) as nat);
        let i = positions[n - 1];
        law_priority_batch_splits_the_queue(queue, (n - 1) as nat);
        lemma_selection(queue, (n - 1) as nat);
        assert(positions == before.push(i));
        assert(positions.take(n - 1) =~= before);
        assert(positions.take(n as int) =~= positions);
        lemma_take_set(positions, n - 1);
        lemma_one_less_left_over(queue, before.to_set(), i);
        assert(batch =~= picked(queue, before).push(queue[i]));
        let kept = left_over(queue, before.to_set());
        vstd::seq_lib::lemma_multiset_commutative(batch, rest);
        vstd::seq_lib::lemma_multiset_commutative(picked(queue, before), kept);
        assert(batch.to_multiset().add(rest.to_multiset()) =~= picked(
            queue,
            before,
        ).to_multiset().add(kept.to_multiset()));
    }
}

proof fn lemma_draining_keeps_ids_tidy(pool: MempoolView, n: nat)
    requires
        pool.tidy(),
        n <= pool.queue.len(),
    ensures
        pool.drained(n as int).tidy(),
{
    let queue = pool.queue;
    let a = pool.drained(n as int);
    let front = queue.take(n as int);
    assert forall|i: int, j: int| 0 <= i < j < a.queue.len() implies (#[trigger] a.queue[i]).id()
        != (#[trigger] a.queue[j]).id() by {
        assert(queue[i + n].id() != queue[j + n].id());
    }
    assert forall|h: hash::Hash| #[trigger] a.pending.contains(h) <==> holds_id(a.queue, h) by {
        lemma_without_ids(pool.pending, front, h);
        assert(pool.pending.contains(h) <==> holds_id(queue, h));
        if holds_id(queue, h) {
            let i = choose|i: int| 0 <= i < queue.len() && (#[trigger] queue[i]).id() == h;
            if i < n {
                assert(front[i].id() == h);
                assert forall|k: int| 0 <= k < a.queue.len() implies (#[trigger] a.queue[k]).id()
                    != h by {
                    assert(queue[i].id() != queue[k + n].id());
                }
            } else {
                assert(a.queue[i - n].id() == h);
                assert forall|k: int| 0 <= k < front.len() implies (#[trigger] front[k]).id()
                    != h by {
                    assert(queue[k].id() != queue[i].id());
                }
            }
        }
        if holds_id(a.queue, h) {
            let k = choose|k: int| 0 <= k < a.queue.len() && (#[trigger] a.queue[k]).id() == h;
            assert(queue[k + n].id() == h);
        }
    }
}

proof fn lemma_skimming_keeps_ids_tidy(pool: MempoolView, n: nat)
    requires
        pool.tidy(),
        n <= pool.queue.len(),
    ensures
        pool.skimmed(n).tidy(),
{
    let queue = pool.queue;
    let positions = selection(queue, n);
    let taken = positions.to_set();
    let batch = picked(queue, positions);
    let b = pool.skimmed(n);
    lemma_selection(queue, n);
    lemma_left_over_differs(queue, taken);
    assert forall|h: hash::Hash| #[trigger] b.pending.contains(h) <==> holds_id(b.queue, h) by {
        lemma_without_ids(pool.pending, batch, h);
        lemma_left_over_ids(queue, taken, h);
        assert(pool.pending.contains(h) <==> holds_id(queue, h));
        if holds_id(queue, h) {
            let i = choose|i: int| 0 <= i < queue.len() && (#[trigger] queue[i]).id() == h;
            assert forall|k: int| 0 <= k < queue.len() && k != i implies (
            #[trigger] queue[k]).id() != h by {
                if k < i {
                    assert(queue[k].id() != queue[i].id());
                } else {
                    assert(queue[i].id() != queue[k].id());
                }
            }
            if taken.contains(i) {
                let t = positions.index_of(i);
                assert(batch[t].id() == h);
            } else {
                assert forall|t: int| 0 <= t < batch.len() implies (#[trigger] batch[t]).id()
                    != h by {
                    assert(taken.contains(positions[t]));
                }
            }
        }
    }
}

/// Taking a batch, from the front or by fee, keeps the pending ids those of
/// the queue.
pub proof fn law_taking_keeps_ids_tidy(pool: MempoolView, n: nat)
    requires
        pool.tidy(),
        n <= pool.queue.len(),
    ensures
        pool.drained(n as int).tidy(),
        pool.skimmed(n).tidy(),
{
    lemma_draining_keeps_ids_tidy(pool, n);
    lemma_skimming_keeps_ids_tidy(pool, n);
}

/// Putting a batch back keeps the pending ids those of the queue, as long as
/// its ids are new to the queue and differ.
pub proof fn law_requeuing_keeps_ids_tidy(pool: MempoolView, batch: Seq<TxView>)
    requires
        pool.tidy(),
        ids_differ(batch, pool.queue),
    ensures
        pool.requeued(batch).tidy(),
{
    let after = pool.requeued(batch);
    let m = batch.len() as int;
    assert forall|i: int, j: int| 0 <= i < j < after.queue.len() implies (
    #[trigger] after.queue[i]).id() != (#[trigger] after.queue[j]).id() by {
        if j < m {
            assert(batch[i].id() != batch[j].id());
        } else if i < m {
            assert(after.queue[j] == pool.queue[j - m]);
            assert(!holds_id(pool.queue, batch[i].id()));
        } else {
            assert(pool.queue[i - m].id() != pool.queue[j - m].id());
        }
    }
    assert forall|h: hash::Hash| #[trigger] after.pending.contains(h) <==> holds_id(
        after.queue,
        h,
    ) by {
        lemma_with_ids(pool.pending, batch, h);
        assert(pool.pending.contains(h) <==> holds_id(pool.queue, h));
        if holds_id(pool.queue, h) {
            let i = choose|i: int|
                0 <= i < pool.queue.len() && (#[trigger] pool.queue[i]).id() == h;
            assert(after.queue[i + m].id() == h);
        }
        if exists|i: int| 0 <= i < batch.len() && (#[trigger] batch[i]).id() == h {
            let i = choose|i: int| 0 <= i < batch.len() && (#[trigger] batch[i]).id() == h;
            assert(after.queue[i].id() == h);
        }
        if holds_id(after.queue, h) {
            let i = choose|i: int|
                0 <= i < after.queue.len() && (#[trigger] after.queue[i]).id() == h;
            if i < m {
                assert(batch[i].id() == h);
            } else {
                assert(pool.queue[i - m].id() == h);
            }
        }
    }
}

/// Putting a batch back undoes taking it: no transaction is lost, the order is
/// restored, and the pending ids and quotas are as they were.
pub proof fn law_requeue_restores(pool: MempoolView, n: int)
    requires
        0 <= n <= pool.queue.len(),
        pool.tidy(),
    ensures
        pool.drained(n).requeued(pool.queue.take(n)) == pool,
{
    let batch = pool.queue.take(n);
    assert(batch + pool.queue.skip(n) =~= pool.queue);
    assert forall|i: int| 0 <= i < batch.len() implies pool.pending.contains(
        (#[trigger] batch[i]).id(),
    ) by {
        assert(batch[i] == pool.queue[i]);
        assert(holds_id(pool.queue, pool.queue[i].id()));
    }
    lemma_without_then_with(pool.pending, batch);
}

/// What has been admitted is refused as a duplicate while it is queued, unless
/// the pool is full before that is looked at.
pub proof fn law_admitted_is_pending(pool: MempoolView, tx: TxView, s: StateView, t: StateView)
    requires
        pool.admission(tx, s) is Ok,
        pool.queue.len() + 1 < pool.max_pending,
    ensures
        pool.admitted(tx).admission(tx, t) == Err::<(), AdmissionError>(AdmissionError::Duplicate),
{
}

/// Admission never takes the pool over its capacity, nor a sender over its
/// quota.
pub proof fn law_admission_respects_the_bounds(pool: MempoolView, tx: TxView, s: StateView)
    requires
        pool.admission(tx, s) is Ok,
    ensures
        pool.admitted(tx).queue.len() <= pool.max_pending,
        pool.admitted(tx).used(tx.sender) == pool.used(tx.sender) + 1,
        pool.admitted(tx).used(tx.sender) <= pool.quota_per_window,
        forall|id: AccountId|
            id != tx.sender ==> #[trigger] pool.admitted(tx).used(id) == pool.used(id),
{
}

/// Admission never lets a sender queue more outflow than it holds.
pub proof fn law_queued_outflow_is_covered(pool: MempoolView, tx: TxView, s: StateView)
    requires
        pool.admission(tx, s) is Ok,
        s.accounts.contains_key(tx.sender),
        outflow_by(pool.queue, tx.sender) <= s.accounts[tx.sender].balance,
    ensures
        outflow_by(pool.admitted(tx).queue, tx.sender) <= s.accounts[tx.sender].balance,
{
    assert(pool.queue.push(tx).drop_last() =~= pool.queue);
}

/// The transactions of a sender are counted one by one, and what they send off
/// is the sum of the amounts that its transfers move. A mint sends off nothing.
pub proof fn law_projections_add_up(a: Seq<TxView>, b: Seq<TxView>, tx: TxView, id: AccountId)
    ensures
        queued_by(Seq::empty(), id) == 0,
        outflow_by(Seq::empty(), id) == 0,
        queued_by(a + b, id) == queued_by(a, id) + queued_by(b, id),
        outflow_by(a + b, id) == outflow_by(a, id) + outflow_by(b, id),
        queued_by(seq![tx], id) == (if tx.sender == id {
            1nat
        } else {
            0nat
        }),
        outflow_by(seq![tx], id) == (match tx.kind {
            TransactionKind::Transfer { amount, .. } if tx.sender == id => amount as int,
            _ => 0int,
        }),
{
    lemma_counts_concat(a, b, id);
    assert(seq![tx].drop_last() =~= Seq::<TxView>::empty());
    assert(seq![tx].last() == tx);
    assert(queued_by(Seq::empty(), id) == 0);
    assert(outflow_by(Seq::empty(), id) == 0);
}

/// Nothing is queued by who has sent nothing.
proof fn lemma_not_queued(queue: Seq<TxView>, id: AccountId)
    requires
        forall|i: int| 0 <= i < queue.len() ==> (#[trigger] queue[i]).sender != id,
    ensures
        queued_by(queue, id) == 0,
        outflow_by(queue, id) == 0,
    decreases queue.len(),
{
    if queue.len() > 0 {
        let rest = queue.drop_last();
        assert forall|i: int| 0 <= i < rest.len() implies (#[trigger] rest[i]).sender != id by {
            assert(queue[i].sender != id);
        }
        lemma_not_queued(rest, id);
        assert(queue[queue.len() - 1].sender != id);
    }
}

proof fn lemma_outflow_nonneg(queue: Seq<TxView>, id: AccountId)
    ensures
        outflow_by(queue, id) >= 0,
    decreases queue.len(),
{
    if queue.len() > 0 {
        lemma_outflow_nonneg(queue.drop_last(), id);
    }
}

/// Admission turns nobody away without a reason: with room in the pool, quota
/// left and no duplicate, a transaction that the ledger finds valid is admitted
/// if its sender has nothing queued, whatever its kind.
pub proof fn law_valid_transactions_are_admitted(pool: MempoolView, tx: TxView, s: StateView)
    requires
        s.verdict(tx) is Ok,
        pool.queue.len() < pool.max_pending,
        !pool.pending.contains(tx.id()),
        (if pool.usage.contains_key(tx.sender) {
            pool.usage[tx.sender]
        } else {
            0
        }) < pool.quota_per_window,
        forall|i: int| 0 <= i < pool.queue.len() ==> (#[trigger] pool.queue[i]).sender != tx.sender,
    ensures
        pool.admission(tx, s) is Ok,
{
    lemma_not_queued(pool.queue, tx.sender);
}

/// A sender that has transactions queued may add the next one: it must carry
/// the nonce after them, and a transfer must be covered by what they leave of
/// the balance.
pub proof fn law_follow_ups_are_admitted(pool: MempoolView, tx: TxView, s: StateView, i: int)
    requires
        tx.access.reads.len() + tx.access.writes.len() <= 64,
        tx.signatures.len() <= 16,
        tx.auth_reveal is None,
        pool.queue.len() < pool.max_pending,
        !pool.pending.contains(tx.id()),
        (if pool.usage.contains_key(tx.sender) {
            pool.usage[tx.sender]
        } else {
            0
        }) < pool.quota_per_window,
        0 <= i < pool.queue.len(),
        pool.queue[i].sender == tx.sender,
        s.accounts.contains_key(tx.sender),
    ensures
        pool.admission(tx, s) is Ok <==> {
            &&& tx.nonce == s.accounts[tx.sender].nonce + queued_by(pool.queue, tx.sender)
            &&& tx.kind matches TransactionKind::Transfer { amount, .. } ==> amount == 0
                || outflow_by(pool.queue, tx.sender) + amount <= s.accounts[tx.sender].balance
        },
{
    lemma_queued_counts(pool.queue, i);
    lemma_outflow_nonneg(pool.queue, tx.sender);
}

/// Whoever has a transaction in the queue has one counted.
proof fn lemma_queued_counts(queue: Seq<TxView>, i: int)
    requires
        0 <= i < queue.len(),
    ensures
        queued_by(queue, queue[i].sender) > 0,
    decreases queue.len(),
{
    if i < queue.len() - 1 {
        assert(queue.drop_last()[i] == queue[i]);
        lemma_queued_counts(queue.drop_last(), i);
    }
}

/// A refused submission has the fault that is named: the pool is full, the id is
/// pending, the quota of the window is used up, or the ledger would refuse it
/// behind what its sender has queued, and then with the figures of the case.
pub proof fn law_refused_submissions_have_a_reason(pool: MempoolView, tx: TxView, s: StateView)
    ensures
        pool.admission(tx, s) matches Err(e) ==> match e {
            AdmissionError::Full => pool.queue.len() >= pool.max_pending,
            AdmissionError::Duplicate => {
                pool.pending.contains(tx.id()) && pool.queue.len() < pool.max_pending
            },
            AdmissionError::QuotaExceeded => {
                &&& pool.queue.len() < pool.max_pending
                &&& !pool.pending.contains(tx.id())
                &&& (if pool.usage.contains_key(tx.sender) {
                    pool.usage[tx.sender]
                } else {
                    0
                }) >= pool.quota_per_window
            },
            AdmissionError::Invalid(fault) => {
                ||| fault is TransactionTooLarge && s.verdict(tx) == Err::<(), TxError>(fault)
                ||| {
                    &&& pool.queue.len() < pool.max_pending
                    &&& !pool.pending.contains(tx.id())
                    &&& {
                        ||| queued_by(pool.queue, tx.sender) == 0 && s.verdict(tx) == Err::<
                            (),
                            TxError,
                        >(fault)
                        ||| s.accounts.contains_key(tx.sender) && match fault {
                            TxError::BadNonce { expected, got } => {
                                let next = s.accounts[tx.sender].nonce + queued_by(
                                    pool.queue,
                                    tx.sender,
                                );
                                &&& got == tx.nonce && tx.nonce != next
                                &&& next <= u64::MAX ==> expected == next
                            },
                            TxError::InsufficientBalance { have, need } => {
                                let left = s.accounts[tx.sender].balance - outflow_by(
                                    pool.queue,
                                    tx.sender,
                                );
                                &&& tx.kind is Transfer && need == tx.kind->Transfer_amount
                                &&& have < need && have == (if left < 0 {
                                    0
                                } else {
                                    left
                                })
                            },
                            _ => false,
                        }
                    }
                }
            },
        },
{
    lemma_outflow_nonneg(pool.queue, tx.sender);
}

/// What admission does: the transaction joins the end of the queue, its id is
/// pending, and one more of its sender's quota is used. Nothing else changes.
pub proof fn law_admission_appends(pool: MempoolView, tx: TxView, s: StateView, id: AccountId)
    requires
        pool.admission(tx, s) is Ok,
    ensures
        ({
            let after = pool.admitted(tx);
            &&& after.queue.len() == pool.queue.len() + 1
            &&& after.queue.last() == tx
            &&& after.queue.drop_last() == pool.queue
            &&& forall|h: hash::Hash| #[trigger]
                after.pending.contains(h) <==> pool.pending.contains(h) || h == tx.id()
            &&& id != tx.sender ==> after.usage.contains_key(id) == pool.usage.contains_key(id)
                && after.usage[id] == pool.usage[id]
            &&& after.usage.contains_key(tx.sender)
            &&& after.usage[tx.sender] == (if pool.usage.contains_key(tx.sender) {
                pool.usage[tx.sender] + 1
            } else {
                1
            })
            &&& after.max_pending == pool.max_pending
            &&& after.quota_per_window == pool.quota_per_window
        }),
{
    assert(pool.admitted(tx).queue.drop_last() =~= pool.queue);
}

/// Taking a batch, from the front or by fee, frees the ids of what is taken and
/// no others, and touches neither quotas nor bounds. A batch is as large as
/// asked for, or as there is.
pub proof fn law_taking_frees_what_is_taken(pool: MempoolView, max: usize, h: hash::Hash)
    ensures
        ({
            let n = at_most(max, pool.queue.len());
            let front = pool.drained(n as int);
            let best = pool.skimmed(n);
            &&& n <= max && n <= pool.queue.len()
            &&& n == max || n == pool.queue.len()
            &&& front.queue == pool.queue.skip(n as int)
            &&& front.pending.contains(h) <==> pool.pending.contains(h) && !exists|i: int|
                0 <= i < n && (#[trigger] pool.queue[i]).id() == h
            &&& best.pending.contains(h) <==> pool.pending.contains(h) && !exists|i: int|
                0 <= i < n && pool.queue[#[trigger] selection(pool.queue, n)[i]].id() == h
            &&& front.usage == pool.usage && best.usage == pool.usage
            &&& front.max_pending == pool.max_pending && best.max_pending == pool.max_pending
            &&& front.quota_per_window == pool.quota_per_window && best.quota_per_window
                == pool.quota_per_window
        }),
{
    let n = at_most(max, pool.queue.len());
    let taken = pool.queue.take(n as int);
    let positions = selection(pool.queue, n);
    let chosen = picked(pool.queue, positions);
    lemma_selection(pool.queue, n);
    lemma_without_ids(pool.pending, taken, h);
    lemma_without_ids(pool.pending, chosen, h);
    if exists|i: int| 0 <= i < n && (#[trigger] pool.queue[i]).id() == h {
        let i = choose|i: int| 0 <= i < n && (#[trigger] pool.queue[i]).id() == h;
        assert(taken[i].id() == h);
    }
    if exists|i: int| 0 <= i < taken.len() && (#[trigger] taken[i]).id() == h {
        let i = choose|i: int| 0 <= i < taken.len() && (#[trigger] taken[i]).id() == h;
        assert(pool.queue[i].id() == h);
    }
    if exists|i: int| 0 <= i < n && pool.queue[#[trigger] positions[i]].id() == h {
        let i = choose|i: int| 0 <= i < n && pool.queue[#[trigger] positions[i]].id() == h;
        assert(chosen[i].id() == h);
    }
    if exists|i: int| 0 <= i < chosen.len() && (#[trigger] chosen[i]).id() == h {
        let i = choose|i: int| 0 <= i < chosen.len() && (#[trigger] chosen[i]).id() == h;
        assert(pool.queue[positions[i]].id() == h);
    }
}

/// The next position of a selection is the best bid among the transactions
/// whose senders have nothing earlier left: no such one offers more, and among
/// equals the earliest goes.
pub proof fn law_best_bids_go_next(queue: Seq<TxView>, k: nat, j: int)
    requires
        k < queue.len(),
        0 <= j < queue.len(),
        !selection(queue, k).contains(j),
        forall|i: int|
            0 <= i < j && (#[trigger] queue[i]).sender == queue[j].sender ==> selection(
                queue,
                k,
            ).contains(i),
    ensures
        ({
            let next = selection(queue, k + 1);
            let i = next[k as int];
            &&& next.take(k as int) == selection(queue, k)
            &&& i == j || queue[i].max_fee > queue[j].max_fee || (queue[i].max_fee
                == queue[j].max_fee && i < j)
        }),
{
    lemma_selection(queue, k);
    lemma_selection(queue, k + 1);
    let before = selection(queue, k);
    assert(selection(queue, k + 1).take(k as int) =~= before);
    assert forall|i: int|
        0 <= i < j && (#[trigger] queue[i]).sender == queue[j].sender implies before.to_set().contains(
        i,
    ) by {
        assert(before.contains(i));
    }
    assert(is_head(queue, before.to_set(), j));
}

/// What stays behind is what was not taken, in the order of the queue: where
/// one of two transactions that stay stood first, it stands first again.
pub proof fn law_what_stays_keeps_its_order(queue: Seq<TxView>, taken: Set<int>, i: int, j: int)
    requires
        0 <= i < j < queue.len(),
        !taken.contains(i),
        !taken.contains(j),
    ensures
        exists|a: int, b: int|
            0 <= a < b < left_over(queue, taken).len() && #[trigger] left_over(queue, taken)[a]
                == queue[i] && #[trigger] left_over(queue, taken)[b] == queue[j],
    decreases queue.len(),
{
    let rest = queue.drop_last();
    let before = left_over(rest, taken);
    let after = left_over(queue, taken);
    if j < queue.len() - 1 {
        law_what_stays_keeps_its_order(rest, taken, i, j);
        let (a, b) = choose|a: int, b: int|
            0 <= a < b < before.len() && #[trigger] before[a] == rest[i] && #[trigger] before[b]
                == rest[j];
        assert(after[a] == queue[i] && after[b] == queue[j]);
    } else {
        lemma_stays(rest, taken, i);
        let a = choose|a: int| 0 <= a < before.len() && before[a] == rest[i];
        assert(after[a] == queue[i] && after[before.len() as int] == queue[j]);
    }
}

proof fn lemma_stays(queue: Seq<TxView>, taken: Set<int>, i: int)
    requires
        0 <= i < queue.len(),
        !taken.contains(i),
    ensures
        exists|a: int|
            0 <= a < left_over(queue, taken).len() && left_over(queue, taken)[a] == queue[i],
    decreases queue.len(),
{
    let rest = queue.drop_last();
    let before = left_over(rest, taken);
    let after = left_over(queue, taken);
    if i < queue.len() - 1 {
        lemma_stays(rest, taken, i);
        let a = choose|a: int| 0 <= a < before.len() && before[a] == rest[i];
        assert(after[a] == queue[i]);
    } else {
        assert(after[before.len() as int] == queue[i]);
    }
}

/// A submission can be projected whenever the numbers fit: the nonce after what a
/// known sender has queued, or what an unknown one has queued to spend.
pub proof fn law_submissions_can_be_projected(pool: MempoolView, tx: TxView, s: StateView)
    ensures
        s.accounts.contains_key(tx.sender) && s.accounts[tx.sender].nonce + pool.queue.len()
            <= u64::MAX ==> pool.considers(tx, s),
        !s.accounts.contains_key(tx.sender) && (forall|i: int|
            0 <= i < pool.queue.len() ==> (#[trigger] pool.queue[i]).sender != tx.sender)
            ==> pool.considers(tx, s),
        pool.pending.contains(tx.id()) ==> pool.considers(tx, s),
        pool.queue.len() >= pool.max_pending ==> pool.considers(tx, s),
{
    lemma_queued_bound(pool.queue, tx.sender);
    if forall|i: int| 0 <= i < pool.queue.len() ==> (#[trigger] pool.queue[i]).sender != tx.sender {
        lemma_not_queued(pool.queue, tx.sender);
    }
}

proof fn lemma_queued_bound(queue: Seq<TxView>, id: AccountId)
    ensures
        queued_by(queue, id) <= queue.len(),
    decreases queue.len(),
{
    if queue.len() > 0 {
        lemma_queued_bound(queue.drop_last(), id);
    }
}

/// A batch can be put back whenever the pool can hold it and nobody's queued
/// spending goes beyond 64 bits.
pub proof fn law_batches_can_be_put_back(pool: MempoolView, batch: Seq<TxView>)
    ensures
        pool.takes_back(batch) <==> {
            &&& batch.len() + pool.queue.len() <= usize::MAX
            &&& forall|id: AccountId| #[trigger]
                outflow_by(batch, id) + outflow_by(pool.queue, id) <= u64::MAX
        },
{
    assert forall|id: AccountId| #[trigger] outflow_by(batch + pool.queue, id) == outflow_by(
        batch,
        id,
    ) + outflow_by(pool.queue, id) by {
        lemma_counts_concat(batch, pool.queue, id);
    }
    if pool.takes_back(batch) {
        assert forall|id: AccountId| #[trigger] outflow_by(batch, id) + outflow_by(pool.queue, id)
            <= u64::MAX by {
            assert(outflow_by(batch + pool.queue, id) <= u64::MAX);
        }
    }
    if forall|id: AccountId| #[trigger]
        outflow_by(batch, id) + outflow_by(pool.queue, id) <= u64::MAX {
        assert forall|id: AccountId| #[trigger] outflow_by(batch + pool.queue, id)
            <= u64::MAX by {
            assert(outflow_by(batch, id) + outflow_by(pool.queue, id) <= u64::MAX);
        }
    }
}

/// What is put back stands in front, in its order, before what was queued, and is
/// pending again; nothing else changes.
pub proof fn law_batches_go_back_in_front(pool: MempoolView, batch: Seq<TxView>, h: hash::Hash)
    ensures
        ({
            let after = pool.requeued(batch);
            &&& after.queue.len() == batch.len() + pool.queue.len()
            &&& after.queue.take(batch.len() as int) == batch
            &&& after.queue.skip(batch.len() as int) == pool.queue
            &&& after.pending.contains(h) <==> pool.pending.contains(h) || exists|i: int|
                0 <= i < batch.len() && (#[trigger] batch[i]).id() == h
            &&& after.usage == pool.usage
            &&& after.max_pending == pool.max_pending
            &&& after.quota_per_window == pool.quota_per_window
        }),
{
    let after = pool.requeued(batch);
    lemma_with_ids(pool.pending, batch, h);
    assert(after.queue.take(batch.len() as int) =~= batch);
    assert(after.queue.skip(batch.len() as int) =~= pool.queue);
}

} // verus!
