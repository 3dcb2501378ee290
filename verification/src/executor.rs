//! Wave executor.
//!
//! Transactions declare access sets; the scheduler partitions a block into
//! *waves* of mutually disjoint transactions. Waves run in order, the
//! transactions inside a wave are independent of each other, and the result is
//! that of serial execution (see [`execute`]):
//!
//! - Conflicting transactions never reorder across waves (a transaction is
//!   scheduled after the last wave it conflicts with).
//! - Execution cannot escape the declared access set: the ledger rejects
//!   undeclared access before any mutation.
//!
//! Every transaction of a wave runs on a sandbox of its own, made by
//! [`sandbox`] and put back by [`merge`], so a caller is free to run the
//! sandboxes of one wave on as many threads as it likes.

use vstd::prelude::*;

use crate::account;
use crate::account::AccountId;
use crate::hash;
use crate::receipt;
use crate::receipt::Receipt;
use crate::state;
use crate::state::{State, StateView};
use crate::state_laws;
use crate::transaction;
use crate::transaction::{Transaction, TransactionKind, TxView};

verus! {

/// Result of executing a batch: the post-state root and one receipt per
/// transaction in batch order.
#[derive(Debug, PartialEq, Eq)]
pub struct ExecutionOutput {
    pub state_root: hash::Hash,
    pub receipts: Vec<Receipt>,
    /// Total figs burned as inclusion fees across the batch (the sum of every
    /// receipt's `fee_paid`). The Cargo supply audit reconciles this against
    /// the change in total supply.
    pub fees_burned: u64,
}

impl Clone for ExecutionOutput {
    fn clone(&self) -> (o: ExecutionOutput)
        ensures
            o.state_root == self.state_root,
            o.receipts@ == self.receipts@,
            o.fees_burned == self.fees_burned,
    {
        let receipts = self.receipts.clone();
        assert(receipts@ =~= self.receipts@);
        ExecutionOutput { state_root: self.state_root, receipts, fees_burned: self.fees_burned }
    }
}

/// Whether the order of two transactions matters: their declared sets overlap,
/// or one writes the account that the other one looks up as its sender.
pub open spec fn conflict(a: TxView, b: TxView) -> bool {
    ||| !a.access.disjoint(b.access)
    ||| a.access.writes.contains(b.sender)
    ||| b.access.writes.contains(a.sender)
}

/// The wave of the `i`-th transaction: the one after the last wave that holds
/// an earlier transaction in conflict with it.
pub open spec fn wave(txs: Seq<TxView>, i: int) -> nat
    decreases i, 1int, 0int,
{
    if i <= 0 {
        0
    } else {
        wave_after(txs, i, i)
    }
}

/// The first wave after those of the conflicts among the first `k`
/// transactions.
pub open spec fn wave_after(txs: Seq<TxView>, i: int, k: int) -> nat
    decreases i, 0int, k,
{
    if k <= 0 || k > i {
        0
    } else {
        let rest = wave_after(txs, i, k - 1);
        if conflict(txs[k - 1], txs[i]) && wave(txs, k - 1) + 1 > rest {
            wave(txs, k - 1) + 1
        } else {
            rest
        }
    }
}

/// The indices of a list of groups.
pub open spec fn group_views(groups: Seq<Vec<usize>>) -> Seq<Seq<usize>> {
    Seq::new(groups.len(), |g: int| groups[g]@)
}

/// Whether `groups` are the waves of the first `n` transactions: group `g`
/// lists, in ascending order, exactly those whose wave is `g`, and none is
/// empty.
pub open spec fn are_waves(txs: Seq<TxView>, groups: Seq<Seq<usize>>, n: int) -> bool {
    &&& forall|g: int| 0 <= g < groups.len() ==> (#[trigger] groups[g]).len() > 0
    &&& forall|g: int, k: int|
        #![trigger groups[g][k]]
        0 <= g < groups.len() && 0 <= k < groups[g].len() ==> groups[g][k] < n && wave(
            txs,
            groups[g][k] as int,
        ) == g
    &&& forall|g: int, k: int, l: int|
        #![trigger groups[g][k], groups[g][l]]
        0 <= g < groups.len() && 0 <= k < l < groups[g].len() ==> groups[g][k] < groups[g][l]
    &&& forall|i: int|
        #![trigger wave(txs, i)]
        0 <= i < n ==> wave(txs, i) < groups.len() && groups[wave(txs, i) as int].contains(
            i as usize,
        )
}

/// No earlier conflict stands in a later wave, and the wave before is there
/// for a reason.
proof fn lemma_wave_after(txs: Seq<TxView>, i: int, k: int)
    requires
        0 <= k <= i,
    ensures
        forall|j: int|
            #![trigger txs[j]]
            0 <= j < k && conflict(txs[j], txs[i]) ==> wave(txs, j) < wave_after(txs, i, k),
        wave_after(txs, i, k) > 0 ==> exists|j: int|
            #![trigger txs[j]]
            0 <= j < k && conflict(txs[j], txs[i]) && wave(txs, j) + 1 == wave_after(txs, i, k),
    decreases k,
{
    if k > 0 {
        lemma_wave_after(txs, i, k - 1);
        let rest = wave_after(txs, i, k - 1);
        let here = txs[k - 1];
        if conflict(here, txs[i]) && wave(txs, k - 1) + 1 > rest {
        } else if rest > 0 {
            let j = choose|j: int|
                #![trigger txs[j]]
                0 <= j < k - 1 && conflict(txs[j], txs[i]) && wave(txs, j) + 1 == rest;
            assert(conflict(txs[j], txs[i]));
        }
    }
}

/// Conflicting transactions keep their order: the later one runs in a later
/// wave.
pub proof fn law_conflicts_keep_order(txs: Seq<TxView>, i: int, j: int)
    requires
        0 <= i < j < txs.len(),
        conflict(txs[i], txs[j]),
    ensures
        wave(txs, i) < wave(txs, j),
{
    lemma_wave_after(txs, j, j);
}

fn in_conflict(a: &Transaction, b: &Transaction) -> (found: bool)
    ensures
        found == conflict(a@, b@),
{
    !a.access.disjoint_from(&b.access) || account::contains(&a.access.writes, &b.sender)
        || account::contains(&b.access.writes, &a.sender)
}

/// Whether a group holds a transaction in conflict with the `i`-th.
fn group_conflicts(txs: &[Transaction], group: &Vec<usize>, i: usize) -> (found: bool)
    requires
        i < txs@.len(),
        forall|k: int| 0 <= k < group@.len() ==> #[trigger] group@[k] < txs@.len(),
    ensures
        found == exists|k: int|
            0 <= k < group@.len() && conflict(txs@[#[trigger] group@[k] as int]@, txs@[i as int]@),
{
    let mut k: usize = 0;
    while k < group.len()
        invariant
            i < txs@.len(),
            k <= group@.len(),
            forall|l: int| 0 <= l < group@.len() ==> #[trigger] group@[l] < txs@.len(),
            forall|l: int|
                0 <= l < k ==> !conflict(
                    txs@[#[trigger] group@[l] as int]@,
                    txs@[i as int]@,
                ),
        decreases group@.len() - k,
    {
        if in_conflict(&txs[group[k]], &txs[i]) {
            assert(conflict(txs@[group@[k as int] as int]@, txs@[i as int]@));
            return true;
        }
        k += 1;
    }
    false
}

/// Partition `txs` (by index) into waves of mutually disjoint transactions.
/// Waves execute in order; everything within a wave may run in parallel.
///
/// A transaction is placed in the wave *after the last wave containing a
/// conflict*. Placing it any earlier, for example greedy first-fit, is
/// unsound: with writes `{Y}`, `{Y,X}`, `{X}`, first-fit puts the third
/// transaction in wave 0 next to the first, executing it *before* the
/// conflicting second transaction and breaking serial order.
pub fn conflict_groups(txs: &[Transaction]) -> (groups: Vec<Vec<usize>>)
    ensures
        are_waves(transaction::tx_views(txs@), group_views(groups@), txs@.len() as int),
{
    let ghost views = transaction::tx_views(txs@);
    let mut groups: Vec<Vec<usize>> = Vec::new();
    let mut i: usize = 0;
    while i < txs.len()
        invariant
            i <= txs@.len(),
            views == transaction::tx_views(txs@),
            are_waves(views, group_views(groups@), i as int),
        decreases txs@.len() - i,
    {
        let ghost before = group_views(groups@);
        let mut target: usize = 0;
        let mut g: usize = 0;
        while g < groups.len()
            invariant
                i < txs@.len(),
                views == transaction::tx_views(txs@),
                before == group_views(groups@),
                are_waves(views, before, i as int),
                g <= groups@.len(),
                target <= g,
                forall|h: int, k: int|
                    #![trigger before[h][k]]
                    target <= h < g && 0 <= k < before[h].len() ==> !conflict(
                        views[before[h][k] as int],
                        views[i as int],
                    ),
                target > 0 ==> exists|k: int|
                    0 <= k < before[target - 1].len() && conflict(
                        views[#[trigger] before[target - 1][k] as int],
                        views[i as int],
                    ),
            decreases groups@.len() - g,
        {
            proof {
                assert(before[g as int] == groups@[g as int]@);
                assert forall|k: int| 0 <= k < groups@[g as int]@.len() implies (
                #[trigger] groups@[g as int]@[k]) < txs@.len() by {
                    assert(before[g as int][k] < i);
                }
            }
            if group_conflicts(txs, &groups[g], i) {
                proof {
                    let k = choose|k: int|
                        0 <= k < groups@[g as int]@.len() && conflict(
                            txs@[#[trigger] groups@[g as int]@[k] as int]@,
                            txs@[i as int]@,
                        );
                    assert(before[g as int][k] == groups@[g as int]@[k]);
                    assert(conflict(views[before[(g + 1) - 1][k] as int], views[i as int]));
                }
                target = g + 1;
            } else {
                assert forall|h: int, k: int|
                    #![trigger before[h][k]]
                    target <= h < g + 1 && 0 <= k < before[h].len() implies !conflict(
                    views[before[h][k] as int],
                    views[i as int],
                ) by {
                    if h == g {
                        assert(before[g as int][k] == groups@[g as int]@[k]);
                        assert(!conflict(
                            txs@[groups@[g as int]@[k] as int]@,
                            txs@[i as int]@,
                        ));
                    }
                }
            }
            g += 1;
        }
        proof {
            lemma_target_is_wave(views, before, i as int, target as int);
        }
        if target == groups.len() {
            let mut fresh: Vec<usize> = Vec::new();
            fresh.push(i);
            groups.push(fresh);
            proof {
                let after = group_views(groups@);
                assert(after =~= before.push(seq![i]));
                lemma_waves_grow(views, before, after, i as int, target as int, seq![i]);
            }
        } else {
            groups[target].push(i);
            proof {
                let after = group_views(groups@);
                assert(after =~= before.update(target as int, before[target as int].push(i)));
                lemma_waves_grow(
                    views,
                    before,
                    after,
                    i as int,
                    target as int,
                    before[target as int].push(i),
                );
            }
        }
        i += 1;
    }
    groups
}

proof fn lemma_target_is_wave(
    txs: Seq<TxView>,
    groups: Seq<Seq<usize>>,
    i: int,
    target: int,
)
    requires
        0 <= i < txs.len() <= usize::MAX,
        are_waves(txs, groups, i),
        0 <= target <= groups.len(),
        forall|h: int, k: int|
            #![trigger groups[h][k]]
            target <= h < groups.len() && 0 <= k < groups[h].len() ==> !conflict(
                txs[groups[h][k] as int],
                txs[i],
            ),
        target > 0 ==> exists|k: int|
            0 <= k < groups[target - 1].len() && conflict(
                txs[#[trigger] groups[target - 1][k] as int],
                txs[i],
            ),
    ensures
        wave(txs, i) == target,
{
    lemma_wave_after(txs, i, i);
    let w = wave(txs, i) as int;
    if i > 0 {
        assert(w == wave_after(txs, i, i));
    } else {
        assert(w == 0);
    }
    if target > 0 {
        let k = choose|k: int|
            0 <= k < groups[target - 1].len() && conflict(
                txs[#[trigger] groups[target - 1][k] as int],
                txs[i],
            );
        let j = groups[target - 1][k] as int;
        assert(wave(txs, j) == target - 1);
        assert(0 <= j < i && conflict(txs[j], txs[i]));
        assert(wave(txs, j) < wave_after(txs, i, i));
        assert(w >= target);
    }
    if w > target {
        let j = choose|j: int|
            #![trigger txs[j]]
            0 <= j < i && conflict(txs[j], txs[i]) && wave(txs, j) + 1 == wave_after(txs, i, i);
        let h = wave(txs, j) as int;
        assert(groups[h].contains(j as usize));
        let k = choose|k: int| 0 <= k < groups[h].len() && groups[h][k] == j as usize;
        assert(!conflict(txs[groups[h][k] as int], txs[i]));
        assert(false);
    }
}

proof fn lemma_waves_grow(
    txs: Seq<TxView>,
    before: Seq<Seq<usize>>,
    after: Seq<Seq<usize>>,
    i: int,
    target: int,
    group: Seq<usize>,
)
    requires
        0 <= i < txs.len() <= usize::MAX,
        are_waves(txs, before, i),
        wave(txs, i) == target,
        0 <= target <= before.len(),
        target == before.len() ==> after == before.push(group) && group == seq![i as usize],
        target < before.len() ==> after == before.update(target, group) && group
            == before[target].push(i as usize),
    ensures
        are_waves(txs, after, i + 1),
{
    assert(after[target] == group);
    assert forall|g: int| 0 <= g < after.len() && g != target implies after[g] == before[g] by {}
    assert forall|g: int, k: int|
        #![trigger after[g][k]]
        0 <= g < after.len() && 0 <= k < after[g].len() implies after[g][k] < i + 1 && wave(
        txs,
        after[g][k] as int,
    ) == g by {
        if g != target {
            assert(before[g][k] < i);
        } else if target < before.len() && k < before[target].len() {
            assert(before[target][k] < i);
            assert(after[g][k] == before[target][k]);
        }
    }
    assert forall|g: int, k: int, l: int|
        #![trigger after[g][k], after[g][l]]
        0 <= g < after.len() && 0 <= k < l < after[g].len() implies after[g][k] < after[g][l] by {
        if g != target {
            assert(before[g][k] < before[g][l]);
        } else if target < before.len() {
            assert(after[g][k] == before[target][k]);
            assert(before[target][k] < i);
            if l < before[target].len() {
                assert(after[g][l] == before[target][l]);
                assert(before[target][k] < before[target][l]);
            }
        }
    }
    assert forall|j: int|
        #![trigger wave(txs, j)]
        0 <= j < i + 1 implies wave(txs, j) < after.len() && after[wave(txs, j) as int].contains(
        j as usize,
    ) by {
        let h = wave(txs, j) as int;
        if j < i {
            assert(before[h].contains(j as usize));
            let k = choose|k: int| 0 <= k < before[h].len() && before[h][k] == j as usize;
            assert(after[h][k] == j as usize);
        } else {
            assert(after[target][group.len() - 1] == i as usize);
        }
    }
}

/// Every account a transaction can possibly read or write: the declared set
/// plus sender, sponsor and credited account.
pub open spec fn touches(tx: TxView, id: AccountId) -> bool {
    tx.access.declares(id) || id == tx.sender || tx.sponsor == Some(id) || id == tx.kind.target()
}

/// A mini-state that holds only the accounts the transaction may touch.
pub open spec fn sandboxed(s: StateView, tx: TxView) -> StateView {
    StateView { accounts: s.accounts.restrict(Set::new(|id: AccountId| touches(tx, id))), ..s }
}

/// A state with the accounts that a sandbox holds under `ids` put in.
pub open spec fn merged(s: StateView, sandbox: StateView, ids: Seq<AccountId>) -> StateView {
    StateView {
        accounts: Map::new(
            |id: AccountId|
                s.accounts.contains_key(id) || (ids.contains(id) && sandbox.accounts.contains_key(
                    id,
                )),
            |id: AccountId|
                if ids.contains(id) && sandbox.accounts.contains_key(id) {
                    sandbox.accounts[id]
                } else {
                    s.accounts[id]
                },
        ),
        ..s
    }
}

/// Every account a transaction can possibly read or write. For well-formed
/// transactions the extras are already declared; for malformed ones they let
/// the sandboxed validation fail with exactly the same error as serial
/// execution.
fn touchable_accounts(tx: &Transaction) -> (ids: Vec<AccountId>)
    ensures
        forall|id: AccountId| #[trigger] ids@.contains(id) <==> touches(tx@, id),
{
    let mut ids: Vec<AccountId> = Vec::new();
    append_ids(&mut ids, &tx.access.reads);
    append_ids(&mut ids, &tx.access.writes);
    let ghost declared = ids@;
    ids.push(tx.sender);
    let to: AccountId = match &tx.kind {
        TransactionKind::Transfer { to, .. } => *to,
        TransactionKind::Mint { to, .. } => *to,
    };
    ids.push(to);
    if let Some(sponsor) = tx.sponsor {
        ids.push(sponsor);
    }
    proof {
        let n = declared.len() as int;
        assert(ids@[n] == tx.sender);
        assert(ids@[n + 1] == to);
        if tx.sponsor is Some {
            assert(ids@[n + 2] == tx.sponsor->0);
        }
        let both = tx.access.reads@ + tx.access.writes@;
        assert(declared =~= both);
        assert forall|id: AccountId| #[trigger] ids@.contains(id) <==> touches(tx@, id) by {
            if tx.access.reads@.contains(id) {
                let k = tx.access.reads@.index_of(id);
                assert(ids@[k] == id);
            }
            if tx.access.writes@.contains(id) {
                let k = tx.access.writes@.index_of(id);
                assert(ids@[tx.access.reads@.len() + k] == id);
            }
            if ids@.contains(id) {
                let k = ids@.index_of(id);
                if k < tx.access.reads@.len() {
                    assert(tx.access.reads@[k] == id);
                } else if k < n {
                    assert(tx.access.writes@[k - tx.access.reads@.len()] == id);
                }
            }
        }
    }
    ids
}

fn append_ids(out: &mut Vec<AccountId>, ids: &Vec<AccountId>)
    ensures
        final(out)@ == old(out)@ + ids@,
{
    let mut i: usize = 0;
    assert(out@ =~= old(out)@ + ids@.take(0));
    while i < ids.len()
        invariant
            i <= ids@.len(),
            out@ == old(out)@ + ids@.take(i as int),
        decreases ids@.len() - i,
    {
        out.push(ids[i]);
        assert(out@ =~= old(out)@ + ids@.take(i + 1));
        i += 1;
    }
    assert(ids@.take(i as int) =~= ids@);
}

/// A mini-state with the ledger's configuration that holds only the accounts
/// the transaction may touch. Within a wave the declared sets are disjoint, so
/// sandboxes never share a mutable account.
pub fn sandbox(state: &State, tx: &Transaction) -> (s: State)
    ensures
        s@ == sandboxed(state@, tx@),
{
    let mut s = state.empty_like();
    let ids = touchable_accounts(tx);
    let mut i: usize = 0;
    assert(s@ =~= merged(s@, state@, ids@.take(0)));
    let ghost bare = s@;
    while i < ids.len()
        invariant
            i <= ids@.len(),
            bare == state@.bare(),
            s@ == merged(bare, state@, ids@.take(i as int)),
        decreases ids@.len() - i,
    {
        let ghost before = s@;
        if let Some(a) = state.account(&ids[i]) {
            s.upsert_account(a.clone());
        }
        proof {
            lemma_merge_step(bare, state@, ids@, i as int);
        }
        i += 1;
    }
    proof {
        assert(ids@.take(i as int) =~= ids@);
        assert(s@ =~= sandboxed(state@, tx@));
    }
    s
}

proof fn lemma_merge_step(s: StateView, sandbox: StateView, ids: Seq<AccountId>, i: int)
    requires
        0 <= i < ids.len(),
    ensures
        merged(s, sandbox, ids.take(i + 1)) == if sandbox.accounts.contains_key(ids[i]) {
            StateView {
                accounts: merged(s, sandbox, ids.take(i)).accounts.insert(
                    ids[i],
                    sandbox.accounts[ids[i]],
                ),
                ..s
            }
        } else {
            merged(s, sandbox, ids.take(i))
        },
{
    let a = ids.take(i);
    let b = ids.take(i + 1);
    assert(b =~= a.push(ids[i]));
    assert forall|id: AccountId| #[trigger] b.contains(id) <==> a.contains(id) || id == ids[i] by {
        if a.contains(id) {
            assert(b[a.index_of(id)] == id);
        }
        assert(b[i] == ids[i]);
        if b.contains(id) {
            let k = b.index_of(id);
            if k < i {
                assert(a[k] == id);
            }
        }
    }
    let next = merged(s, sandbox, b);
    if sandbox.accounts.contains_key(ids[i]) {
        assert(next =~= StateView {
            accounts: merged(s, sandbox, a).accounts.insert(ids[i], sandbox.accounts[ids[i]]),
            ..s
        });
    } else {
        assert(next =~= merged(s, sandbox, a));
    }
}

/// Merge sandbox effects back. Only declared writes are merged; a transaction
/// that failed validation mutated nothing, and one that executed had its
/// writes covered by the declaration.
pub fn merge(state: &mut State, sandbox: &State, tx: &Transaction)
    ensures
        final(state)@ == merged(old(state)@, sandbox@, tx@.access.writes),
{
    let ghost start = state@;
    let mut i: usize = 0;
    assert(state@ =~= merged(start, sandbox@, tx.access.writes@.take(0)));
    while i < tx.access.writes.len()
        invariant
            i <= tx.access.writes@.len(),
            state@ == merged(start, sandbox@, tx.access.writes@.take(i as int)),
        decreases tx.access.writes@.len() - i,
    {
        if let Some(a) = sandbox.account(&tx.access.writes[i]) {
            state.upsert_account(a.clone());
        }
        proof {
            lemma_merge_step(start, sandbox@, tx.access.writes@, i as int);
        }
        i += 1;
    }
    assert(tx.access.writes@.take(i as int) =~= tx.access.writes@);
}

/// The serial state before the `k`-th transaction.
spec fn serial(s: StateView, txs: Seq<TxView>, k: int) -> StateView {
    s.apply_all(txs.take(k))
}

proof fn lemma_serial_step(s: StateView, txs: Seq<TxView>, k: int)
    requires
        0 <= k < txs.len(),
    ensures
        serial(s, txs, k + 1) == serial(s, txs, k).apply(txs[k]),
        state_laws::same_config(serial(s, txs, k + 1), serial(s, txs, k)),
{
    assert(txs.take(k + 1).drop_last() =~= txs.take(k));
}

proof fn lemma_serial_config(s: StateView, txs: Seq<TxView>, k: int)
    requires
        0 <= k <= txs.len(),
    ensures
        state_laws::same_config(s, serial(s, txs, k)),
    decreases k,
{
    if k > 0 {
        lemma_serial_config(s, txs, k - 1);
        lemma_serial_step(s, txs, k - 1);
    } else {
        assert(txs.take(0) =~= Seq::<TxView>::empty());
    }
}

/// A transaction between two others that does not write an account leaves it.
proof fn lemma_unwritten(s: StateView, txs: Seq<TxView>, a: int, b: int, id: AccountId)
    requires
        0 <= a <= b <= txs.len(),
        forall|j: int| a <= j < b ==> !(#[trigger] txs[j]).access.writes.contains(id),
    ensures
        state_laws::same_at(serial(s, txs, a), serial(s, txs, b), id),
    decreases b - a,
{
    if a < b {
        lemma_unwritten(s, txs, a, b - 1, id);
        lemma_serial_step(s, txs, b - 1);
        assert(!txs[b - 1].access.writes.contains(id));
        state_laws::law_writes_are_declared(serial(s, txs, b - 1), txs[b - 1], id);
    }
}

/// Whether, of the transactions that write `id`, exactly those before `m` are
/// done.
spec fn done_up_to(txs: Seq<TxView>, done: Set<int>, id: AccountId, m: int) -> bool {
    forall|j: int|
        #![trigger txs[j]]
        0 <= j < txs.len() && txs[j].access.writes.contains(id) ==> (done.contains(j) <==> j < m)
}

/// Whether `w` is what `done` makes of `s`: every account is as it is in serial
/// execution at the point up to which its writers are done.
spec fn in_step(s: StateView, txs: Seq<TxView>, done: Set<int>, w: StateView) -> bool {
    &&& state_laws::same_config(s, w)
    &&& forall|id: AccountId, m: int|
        0 <= m <= txs.len() && #[trigger] done_up_to(txs, done, id, m) ==> state_laws::same_at(
            w,
            serial(s, txs, m),
            id,
        )
}

proof fn lemma_start_in_step(s: StateView, txs: Seq<TxView>)
    ensures
        in_step(s, txs, Set::empty(), s),
{
    assert(txs.take(0) =~= Seq::<TxView>::empty());
    assert forall|id: AccountId, m: int|
        0 <= m <= txs.len() && #[trigger] done_up_to(
            txs,
            Set::empty(),
            id,
            m,
        ) implies state_laws::same_at(s, serial(s, txs, m), id) by {
        lemma_unwritten(s, txs, 0, m, id);
    }
}

/// The transactions of the waves before `g`.
spec fn waves_before(txs: Seq<TxView>, g: int) -> Set<int> {
    Set::new(|j: int| 0 <= j < txs.len() && wave(txs, j) < g)
}

/// At its wave, a transaction finds its sender and its writes as serial
/// execution leaves them for it.
proof fn lemma_ready(s: StateView, txs: Seq<TxView>, w: StateView, i: int, id: AccountId)
    requires
        0 <= i < txs.len(),
        in_step(s, txs, waves_before(txs, wave(txs, i) as int), w),
        id == txs[i].sender || txs[i].access.writes.contains(id),
    ensures
        state_laws::same_at(w, serial(s, txs, i), id),
{
    let done = waves_before(txs, wave(txs, i) as int);
    assert forall|j: int|
        #![trigger txs[j]]
        0 <= j < txs.len() && txs[j].access.writes.contains(id) implies (done.contains(j) <==> j
        < i) by {
        assert(conflict(txs[j], txs[i]) && conflict(txs[i], txs[j])) by {
            if txs[i].access.writes.contains(id) {
                assert(transaction::overlap(txs[j].access.writes, txs[i].access.writes));
                assert(transaction::overlap(txs[i].access.writes, txs[j].access.writes));
            }
        }
        if j < i {
            law_conflicts_keep_order(txs, j, i);
        } else if i < j {
            law_conflicts_keep_order(txs, i, j);
        }
    }
    assert(done_up_to(txs, done, id, i));
}

/// In its sandbox a transaction finds a nonce left, as it does serially.
proof fn lemma_sandbox_nonce_left(s: StateView, txs: Seq<TxView>, at_wave: StateView, i: int)
    requires
        0 <= i < txs.len(),
        s.nonces_left(txs),
        in_step(s, txs, waves_before(txs, wave(txs, i) as int), at_wave),
    ensures
        sandboxed(at_wave, txs[i]).nonce_left(txs[i]),
{
    let tx = txs[i];
    lemma_ready(s, txs, at_wave, i, tx.sender);
    assert(touches(tx, tx.sender));
    state::lemma_nonce_left(s, txs, i);
}

/// Running a transaction on its sandbox and merging it back keeps step.
proof fn lemma_merge_in_step(
    s: StateView,
    txs: Seq<TxView>,
    at_wave: StateView,
    done: Set<int>,
    w: StateView,
    i: int,
)
    requires
        0 <= i < txs.len(),
        in_step(s, txs, waves_before(txs, wave(txs, i) as int), at_wave),
        in_step(s, txs, done, w),
        !done.contains(i),
        forall|j: int| #[trigger]
            done.contains(j) ==> 0 <= j < txs.len() && wave(txs, j) <= wave(txs, i),
    ensures
        sandboxed(at_wave, txs[i]).receipt(txs[i]) == serial(s, txs, i).receipt(txs[i]),
        in_step(
            s,
            txs,
            done.insert(i),
            merged(w, sandboxed(at_wave, txs[i]).apply(txs[i]), txs[i].access.writes),
        ),
{
    let tx = txs[i];
    let boxed = sandboxed(at_wave, tx);
    let truth = serial(s, txs, i);
    let after = merged(w, boxed.apply(tx), tx.access.writes);
    lemma_serial_config(s, txs, i);
    lemma_serial_step(s, txs, i);
    assert(at_wave.bare() == boxed.bare());
    assert(state_laws::same_config(boxed, truth));
    lemma_ready(s, txs, at_wave, i, tx.sender);
    assert(state_laws::same_at(boxed, truth, tx.sender)) by {
        assert(touches(tx, tx.sender));
    }
    assert forall|id: AccountId| #[trigger] tx.access.writes.contains(id) implies state_laws::same_at(
        boxed,
        truth,
        id,
    ) by {
        lemma_ready(s, txs, at_wave, i, id);
        assert(touches(tx, id));
    }
    state_laws::law_effects_depend_on_declared(boxed, truth, tx);
    assert(after.bare() == w.bare());
    let more = done.insert(i);
    assert forall|id: AccountId, m: int|
        0 <= m <= txs.len() && #[trigger] done_up_to(txs, more, id, m) implies state_laws::same_at(
        after,
        serial(s, txs, m),
        id,
    ) by {
        if tx.access.writes.contains(id) {
            assert(txs[i].access.writes.contains(id));
            assert(i < m);
            assert forall|j: int| i + 1 <= j < m implies !(#[trigger] txs[j]).access.writes.contains(
                id,
            ) by {
                if txs[j].access.writes.contains(id) {
                    assert(more.contains(j));
                    assert(transaction::overlap(txs[i].access.writes, txs[j].access.writes));
                    law_conflicts_keep_order(txs, i, j);
                    assert(done.contains(j));
                }
            }
            lemma_unwritten(s, txs, i + 1, m, id);
            assert(state_laws::same_at(boxed.apply(tx), truth.apply(tx), id));
            lemma_applied_keeps(boxed, tx, id);
            lemma_ready(s, txs, at_wave, i, id);
            lemma_w_absent(s, txs, done, w, i, id);
        } else {
            assert(done_up_to(txs, done, id, m)) by {
                assert forall|j: int|
                    #![trigger txs[j]]
                    0 <= j < txs.len() && txs[j].access.writes.contains(id) implies (done.contains(
                    j,
                ) <==> j < m) by {
                    assert(more.contains(j) <==> j < m);
                }
            }
            assert(state_laws::same_at(w, serial(s, txs, m), id));
        }
    }
}

/// A transaction removes no account.
proof fn lemma_applied_keeps(s: StateView, tx: TxView, id: AccountId)
    ensures
        s.accounts.contains_key(id) ==> s.apply(tx).accounts.contains_key(id),
{
}

/// Before its writer is merged, an account is as serial execution leaves it
/// for the writer.
proof fn lemma_w_absent(
    s: StateView,
    txs: Seq<TxView>,
    done: Set<int>,
    w: StateView,
    i: int,
    id: AccountId,
)
    requires
        0 <= i < txs.len(),
        in_step(s, txs, done, w),
        txs[i].access.writes.contains(id),
        !done.contains(i),
        forall|j: int| #[trigger]
            done.contains(j) ==> 0 <= j < txs.len() && wave(txs, j) <= wave(txs, i),
        exists|m: int| done_up_to(txs, done.insert(i), id, m) && i < m <= txs.len(),
    ensures
        state_laws::same_at(w, serial(s, txs, i), id),
{
    let m = choose|m: int| done_up_to(txs, done.insert(i), id, m) && i < m <= txs.len();
    assert forall|j: int|
        #![trigger txs[j]]
        0 <= j < txs.len() && txs[j].access.writes.contains(id) implies (done.contains(j) <==> j
        < i) by {
        assert(done.insert(i).contains(j) <==> j < m);
        if i < j {
            assert(transaction::overlap(txs[i].access.writes, txs[j].access.writes));
            law_conflicts_keep_order(txs, i, j);
        }
    }
    assert(done_up_to(txs, done, id, i));
}

proof fn lemma_all_done(s: StateView, txs: Seq<TxView>, done: Set<int>, w: StateView)
    requires
        in_step(s, txs, done, w),
        forall|j: int| #![trigger txs[j]] 0 <= j < txs.len() ==> done.contains(j),
    ensures
        w == s.apply_all(txs),
{
    let n = txs.len() as int;
    let end = serial(s, txs, n);
    assert(txs.take(n) =~= txs);
    lemma_serial_config(s, txs, n);
    assert forall|id: AccountId| state_laws::same_at(w, end, id) by {
        assert(done_up_to(txs, done, id, n));
    }
    assert forall|id: AccountId| #[trigger] w.accounts.contains_key(id)
        == end.accounts.contains_key(id) by {
        assert(state_laws::same_at(w, end, id));
    }
    assert forall|id: AccountId| w.accounts.contains_key(id) implies #[trigger] w.accounts[id]
        == end.accounts[id] by {
        assert(state_laws::same_at(w, end, id));
    }
    assert(w.accounts =~= end.accounts);
    assert(w.bare() == end.bare());
    assert(w.bare().chain_id == w.chain_id && w.bare().minter == w.minter && w.bare().base_fee
        == w.base_fee);
    assert(end.bare().chain_id == end.chain_id && end.bare().minter == end.minter
        && end.bare().base_fee == end.base_fee);
}

/// The receipts of serial execution, one by one.
pub proof fn lemma_receipt_at(s: StateView, txs: Seq<TxView>, i: int)
    requires
        0 <= i < txs.len(),
    ensures
        s.receipts(txs).len() == txs.len(),
        s.receipts(txs)[i] == s.apply_all(txs.take(i)).receipt(txs[i]),
    decreases txs.len(),
{
    let rest = txs.drop_last();
    lemma_receipts_len(s, txs);
    lemma_receipts_len(s, rest);
    if i < rest.len() {
        lemma_receipt_at(s, rest, i);
        assert(rest.take(i) =~= txs.take(i));
    } else {
        assert(txs.take(i) =~= rest);
    }
}

/// No transaction changes the consensus configuration.
pub proof fn lemma_config_stays(s: StateView, txs: Seq<TxView>)
    ensures
        s.apply_all(txs).bare() == s.bare(),
        s.apply_all(txs).minter == s.minter,
        s.apply_all(txs).chain_id == s.chain_id,
        s.apply_all(txs).base_fee == s.base_fee,
    decreases txs.len(),
{
    if txs.len() > 0 {
        lemma_config_stays(s, txs.drop_last());
    }
}

/// One receipt per transaction.
pub proof fn lemma_receipts_len(s: StateView, txs: Seq<TxView>)
    ensures
        s.receipts(txs).len() == txs.len(),
    decreases txs.len(),
{
    if txs.len() > 0 {
        lemma_receipts_len(s, txs.drop_last());
    }
}

/// Runs one wave: every transaction on a sandbox of its own, then all merges.
fn run_wave(
    state: &mut State,
    txs: &[Transaction],
    group: &Vec<usize>,
    receipts: &mut Vec<Option<Receipt>>,
    start: Ghost<StateView>,
    g: Ghost<int>,
)
    requires
        start@.nonces_left(transaction::tx_views(txs@)),
        in_step(
            start@,
            transaction::tx_views(txs@),
            waves_before(transaction::tx_views(txs@), g@),
            old(state)@,
        ),
        forall|k: int|
            0 <= k < group@.len() ==> #[trigger] group@[k] < txs@.len() && wave(
                transaction::tx_views(txs@),
                group@[k] as int,
            ) == g@,
        forall|k: int, l: int| 0 <= k < l < group@.len() ==> group@[k] < group@[l],
        forall|j: int|
            #![trigger wave(transaction::tx_views(txs@), j)]
            0 <= j < txs@.len() && wave(transaction::tx_views(txs@), j) == g@ ==> group@.contains(
                j as usize,
            ),
        old(receipts)@.len() == txs@.len(),
        receipts_done(
            start@,
            transaction::tx_views(txs@),
            waves_before(transaction::tx_views(txs@), g@),
            old(receipts)@,
        ),
    ensures
        in_step(
            start@,
            transaction::tx_views(txs@),
            waves_before(transaction::tx_views(txs@), g@ + 1),
            final(state)@,
        ),
        final(receipts)@.len() == txs@.len(),
        receipts_done(
            start@,
            transaction::tx_views(txs@),
            waves_before(transaction::tx_views(txs@), g@ + 1),
            final(receipts)@,
        ),
{
    let ghost views = transaction::tx_views(txs@);
    let ghost at_wave = state@;
    let ghost base = waves_before(views, g@);
    let n: usize = txs.len();
    // One sandbox per transaction, all from the state before the wave.
    let mut jobs: Vec<State> = Vec::new();
    let mut k: usize = 0;
    while k < group.len()
        invariant
            k <= group@.len(),
            views == transaction::tx_views(txs@),
            state@ == at_wave,
            forall|l: int| 0 <= l < group@.len() ==> #[trigger] group@[l] < txs@.len(),
            jobs@.len() == k,
            forall|l: int|
                0 <= l < k ==> (#[trigger] jobs@[l])@ == sandboxed(
                    at_wave,
                    views[group@[l] as int],
                ),
        decreases group@.len() - k,
    {
        jobs.push(sandbox(state, &txs[group[k]]));
        k += 1;
    }
    // Run them.
    let mut results: Vec<Receipt> = Vec::new();
    let mut k: usize = 0;
    while k < group.len()
        invariant
            k <= group@.len(),
            views == transaction::tx_views(txs@),
            start@.nonces_left(views),
            in_step(start@, views, base, at_wave),
            base == waves_before(views, g@),
            forall|l: int|
                0 <= l < group@.len() ==> #[trigger] group@[l] < txs@.len() && wave(
                    views,
                    group@[l] as int,
                ) == g@,
            jobs@.len() == group@.len(),
            results@.len() == k,
            forall|l: int|
                0 <= l < k ==> (#[trigger] jobs@[l])@ == sandboxed(
                    at_wave,
                    views[group@[l] as int],
                ).apply(views[group@[l] as int]),
            forall|l: int|
                k <= l < group@.len() ==> (#[trigger] jobs@[l])@ == sandboxed(
                    at_wave,
                    views[group@[l] as int],
                ),
            forall|l: int|
                0 <= l < k ==> #[trigger] results@[l] == sandboxed(
                    at_wave,
                    views[group@[l] as int],
                ).receipt(views[group@[l] as int]),
        decreases group@.len() - k,
    {
        let i: usize = group[k];
        assert(views[i as int] == txs@[i as int]@);
        proof {
            lemma_sandbox_nonce_left(start@, views, at_wave, i as int);
        }
        let mut job: State = State::new();
        std::mem::swap(&mut job, &mut jobs[k]);
        let r = job.apply_tx(&txs[i]);
        jobs[k] = job;
        results.push(r);
        k += 1;
    }
    // Merge sandbox effects back.
    let ghost mut done = base;
    let mut k: usize = 0;
    while k < group.len()
        invariant
            k <= group@.len(),
            views == transaction::tx_views(txs@),
            in_step(start@, views, base, at_wave),
            base == waves_before(views, g@),
            in_step(start@, views, done, state@),
            forall|j: int| #[trigger]
                done.contains(j) <==> base.contains(j) || exists|l: int|
                    0 <= l < k && #[trigger] group@[l] == j,
            forall|l: int|
                0 <= l < group@.len() ==> #[trigger] group@[l] < txs@.len() && wave(
                    views,
                    group@[l] as int,
                ) == g@,
            forall|k: int, l: int| 0 <= k < l < group@.len() ==> group@[k] < group@[l],
            jobs@.len() == group@.len(),
            results@.len() == group@.len(),
            forall|l: int|
                0 <= l < group@.len() ==> (#[trigger] jobs@[l])@ == sandboxed(
                    at_wave,
                    views[group@[l] as int],
                ).apply(views[group@[l] as int]),
            forall|l: int|
                0 <= l < group@.len() ==> #[trigger] results@[l] == sandboxed(
                    at_wave,
                    views[group@[l] as int],
                ).receipt(views[group@[l] as int]),
            receipts@.len() == txs@.len(),
            receipts_done(start@, views, done, receipts@),
        decreases group@.len() - k,
    {
        let i: usize = group[k];
        proof {
            assert(!done.contains(i as int)) by {
                if exists|l: int| 0 <= l < k && #[trigger] group@[l] == i {
                    let l = choose|l: int| 0 <= l < k && #[trigger] group@[l] == i;
                    assert(group@[l] < group@[k as int]);
                }
            }
            lemma_merge_in_step(start@, views, at_wave, done, state@, i as int);
        }
        merge(state, &jobs[k], &txs[i]);
        receipts[i] = Some(results[k]);
        proof {
            let more = done.insert(i as int);
            assert forall|j: int| #[trigger] more.contains(j) <==> base.contains(j) || exists|
                l: int,
            | 0 <= l < k + 1 && #[trigger] group@[l] == j by {
                if done.contains(j) && !base.contains(j) {
                    let l = choose|l: int| 0 <= l < k && #[trigger] group@[l] == j;
                    assert(group@[l] == j);
                }
                assert(group@[k as int] == i);
            }
            done = more;
        }
        k += 1;
    }
    proof {
        assert(done =~= waves_before(views, g@ + 1)) by {
            assert forall|j: int| #[trigger] done.contains(j) <==> waves_before(
                views,
                g@ + 1,
            ).contains(j) by {
                if 0 <= j < txs@.len() && wave(views, j) == g@ {
                    assert(j < n);
                    assert(group@.contains(j as usize));
                    let l = group@.index_of(j as usize);
                    assert(group@[l] == j);
                }
            }
        }
    }
}

/// Whether the receipts of the transactions that are done are those of serial
/// execution.
spec fn receipts_done(
    s: StateView,
    txs: Seq<TxView>,
    done: Set<int>,
    receipts: Seq<Option<Receipt>>,
) -> bool {
    forall|j: int| #[trigger]
        done.contains(j) && 0 <= j < txs.len() ==> receipts[j] == Some(
            serial(s, txs, j).receipt(txs[j]),
        )
}

/// The sum of the fees that the receipts record; nothing if it does not fit
/// 64 bits.
fn sum_fees(receipts: &Vec<Receipt>) -> (sum: Option<u64>)
    ensures
        match sum {
            Some(n) => n == receipt::fees_of(receipts@),
            None => receipt::fees_of(receipts@) > u64::MAX,
        },
{
    let mut sum: u64 = 0;
    let mut i: usize = 0;
    while i < receipts.len()
        invariant
            i <= receipts@.len(),
            sum == receipt::fees_of(receipts@.take(i as int)),
        decreases receipts@.len() - i,
    {
        proof {
            assert(receipts@.take(i + 1).drop_last() =~= receipts@.take(i as int));
            lemma_fees_prefix(receipts@, i + 1);
        }
        match sum.checked_add(receipts[i].fee_paid) {
            Some(n) => {
                sum = n;
            },
            None => {
                return None;
            },
        }
        i += 1;
    }
    assert(receipts@.take(i as int) =~= receipts@);
    Some(sum)
}

proof fn lemma_fees_prefix(receipts: Seq<Receipt>, i: int)
    requires
        0 <= i <= receipts.len(),
    ensures
        receipt::fees_of(receipts.take(i)) <= receipt::fees_of(receipts),
    decreases receipts.len() - i,
{
    if i < receipts.len() {
        assert(receipts.take(i + 1).drop_last() =~= receipts.take(i));
        lemma_fees_prefix(receipts, i + 1);
    } else {
        assert(receipts.take(i) =~= receipts);
    }
}

/// A batch burns the base fee once per transaction at most.
pub proof fn law_fees_are_bounded(s: StateView, txs: Seq<TxView>)
    ensures
        receipt::fees_of(s.receipts(txs)) <= s.base_fee * txs.len(),
    decreases txs.len(),
{
    if txs.len() > 0 {
        let rest = txs.drop_last();
        law_fees_are_bounded(s, rest);
        assert(rest.take(rest.len() as int) =~= rest);
        lemma_serial_config(s, rest, rest.len() as int);
        assert(s.apply_all(rest).bare().base_fee == s.bare().base_fee);
        assert(s.receipts(txs).drop_last() =~= s.receipts(rest));
        assert(s.base_fee * txs.len() == s.base_fee * (txs.len() - 1) + s.base_fee)
            by (nonlinear_arith);
    }
}

/// Whether a state can take a batch: no nonce runs out, and the fees that are
/// burned add up in 64 bits.
pub open spec fn can_take(s: StateView, txs: Seq<TxView>) -> bool {
    s.nonces_left(txs) && receipt::fees_of(s.receipts(txs)) <= u64::MAX
}

/// Run all waves.
fn run_waves(state: &mut State, txs: &[Transaction]) -> (receipts: Vec<Receipt>)
    requires
        old(state)@.nonces_left(transaction::tx_views(txs@)),
    ensures
        final(state)@ == old(state)@.apply_all(transaction::tx_views(txs@)),
        receipts@ == old(state)@.receipts(transaction::tx_views(txs@)),
{
    let ghost start = state@;
    let ghost views = transaction::tx_views(txs@);
    let mut slots: Vec<Option<Receipt>> = Vec::new();
    let mut i: usize = 0;
    while i < txs.len()
        invariant
            i <= txs@.len(),
            slots@.len() == i,
        decreases txs@.len() - i,
    {
        slots.push(None);
        i += 1;
    }
    let groups = conflict_groups(txs);
    let ghost waves = group_views(groups@);
    proof {
        lemma_start_in_step(start, views);
        assert(waves_before(views, 0) =~= Set::<int>::empty());
    }
    let mut g: usize = 0;
    while g < groups.len()
        invariant
            g <= groups@.len(),
            views == transaction::tx_views(txs@),
            waves == group_views(groups@),
            are_waves(views, waves, txs@.len() as int),
            start.nonces_left(views),
            in_step(start, views, waves_before(views, g as int), state@),
            slots@.len() == txs@.len(),
            receipts_done(start, views, waves_before(views, g as int), slots@),
        decreases groups@.len() - g,
    {
        proof {
            assert(waves[g as int] == groups@[g as int]@);
            assert forall|k: int| 0 <= k < groups@[g as int]@.len() implies (
            #[trigger] groups@[g as int]@[k]) < txs@.len() && wave(
                views,
                groups@[g as int]@[k] as int,
            ) == g by {
                assert(waves[g as int][k] == groups@[g as int]@[k]);
            }
            assert forall|k: int, l: int|
                0 <= k < l < groups@[g as int]@.len() implies groups@[g as int]@[k]
                < groups@[g as int]@[l] by {
                assert(waves[g as int][k] < waves[g as int][l]);
            }
        }
        run_wave(state, txs, &groups[g], &mut slots, Ghost(start), Ghost(g as int));
        g += 1;
    }
    let ghost done = waves_before(views, g as int);
    proof {
        assert forall|j: int| #![trigger views[j]] 0 <= j < views.len() implies done.contains(
            j,
        ) by {
            assert(wave(views, j) < waves.len());
        }
        lemma_all_done(start, views, done, state@);
        lemma_receipts_len(start, views);
    }
    let mut receipts: Vec<Receipt> = Vec::new();
    let mut i: usize = 0;
    while i < txs.len()
        invariant
            i <= txs@.len(),
            views == transaction::tx_views(txs@),
            slots@.len() == txs@.len(),
            receipts_done(start, views, done, slots@),
            forall|j: int| #![trigger views[j]] 0 <= j < views.len() ==> done.contains(j),
            start.receipts(views).len() == txs@.len(),
            receipts@ == start.receipts(views).take(i as int),
        decreases txs@.len() - i,
    {
        proof {
            let here = views[i as int];
            assert(done.contains(i as int));
            lemma_receipt_at(start, views, i as int);
        }
        if let Some(r) = slots[i] {
            receipts.push(r);
        }
        assert(receipts@ =~= start.receipts(views).take(i + 1));
        i += 1;
    }
    assert(start.receipts(views).take(i as int) =~= start.receipts(views));
    receipts
}

/// Execute `txs` against `state` wave by wave. Produces the same state and
/// receipts as serially calling `state.apply_tx` for each transaction in
/// order.
pub fn execute(state: &mut State, txs: &[Transaction]) -> (out: ExecutionOutput)
    requires
        can_take(old(state)@, transaction::tx_views(txs@)),
    ensures
        final(state)@ == old(state)@.apply_all(transaction::tx_views(txs@)),
        out.receipts@ == old(state)@.receipts(transaction::tx_views(txs@)),
        out.state_root == final(state)@.root(),
        out.fees_burned == receipt::fees_of(out.receipts@),
{
    let receipts = run_waves(state, txs);
    let fees_burned: u64 = match sum_fees(&receipts) {
        Some(n) => n,
        None => 0,
    };
    ExecutionOutput { state_root: state.root(), receipts, fees_burned }
}

/// Whether `state` can take a batch, found out on a copy.
pub fn can_execute(state: &State, txs: &[Transaction]) -> (ok: bool)
    ensures
        ok == can_take(state@, transaction::tx_views(txs@)),
{
    if !state.has_nonces_left(txs) {
        return false;
    }
    let mut scratch = state.clone();
    let receipts = run_waves(&mut scratch, txs);
    sum_fees(&receipts).is_some()
}

/// Execute `txs` against `state` if it can take them; otherwise leave it as it
/// is.
pub fn try_execute(state: &mut State, txs: &[Transaction]) -> (out: Option<ExecutionOutput>)
    ensures
        match out {
            Some(o) => {
                &&& can_take(old(state)@, transaction::tx_views(txs@))
                &&& final(state)@ == old(state)@.apply_all(transaction::tx_views(txs@))
                &&& o.receipts@ == old(state)@.receipts(transaction::tx_views(txs@))
                &&& o.state_root == final(state)@.root()
                &&& o.fees_burned == receipt::fees_of(o.receipts@)
            },
            None => !can_take(old(state)@, transaction::tx_views(txs@)) && final(state)@ == old(state)@,
        },
{
    if can_execute(state, txs) {
        Some(execute(state, txs))
    } else {
        None
    }
}

/// Two transactions conflict exactly if one of them writes an account that the
/// other one reads, writes, or spends from.
pub proof fn law_conflicts_are_about_writes(a: TxView, b: TxView)
    ensures
        conflict(a, b) <==> exists|id: AccountId|
            {
                ||| #[trigger] a.access.writes.contains(id) && (b.access.writes.contains(id)
                    || b.access.reads.contains(id) || b.sender == id)
                ||| b.access.writes.contains(id) && (a.access.reads.contains(id) || a.sender == id)
            },
        conflict(a, b) == conflict(b, a),
{
    if !a.access.disjoint(b.access) {
        if transaction::overlap(a.access.writes, b.access.writes) {
            let id = choose|id: AccountId| #[trigger]
                a.access.writes.contains(id) && #[trigger] b.access.writes.contains(id);
            assert(a.access.writes.contains(id));
        } else if transaction::overlap(a.access.writes, b.access.reads) {
            let id = choose|id: AccountId| #[trigger]
                a.access.writes.contains(id) && #[trigger] b.access.reads.contains(id);
            assert(a.access.writes.contains(id));
        } else {
            let id = choose|id: AccountId| #[trigger]
                a.access.reads.contains(id) && #[trigger] b.access.writes.contains(id);
            let w = a.access.writes.contains(id);
            assert(b.access.writes.contains(id) && a.access.reads.contains(id));
        }
    } else if a.access.writes.contains(b.sender) {
        let id = b.sender;
        assert(a.access.writes.contains(id));
    } else if b.access.writes.contains(a.sender) {
        let id = a.sender;
        let w = a.access.writes.contains(id);
        assert(b.access.writes.contains(id));
    }
    transaction::law_disjoint_is_symmetric(a.access, b.access);
}

/// No transaction waits without need: one in a later wave conflicts with an
/// earlier one of the wave just before, and one that conflicts with nothing
/// before it runs at once.
pub proof fn law_waves_are_as_early_as_can_be(txs: Seq<TxView>, i: int)
    requires
        0 <= i < txs.len(),
    ensures
        wave(txs, i) > 0 ==> exists|j: int|
            0 <= j < i && conflict(txs[j], txs[i]) && #[trigger] wave(txs, j) + 1 == wave(txs, i),
        (forall|j: int| 0 <= j < i ==> !conflict(#[trigger] txs[j], txs[i])) ==> wave(txs, i) == 0,
{
    if i > 0 {
        lemma_wave_has_a_cause(txs, i, i);
        if wave(txs, i) > 0 {
            let j = choose|j: int|
                0 <= j < i && conflict(#[trigger] txs[j], txs[i]) && wave(txs, j) + 1
                    == wave_after(txs, i, i);
            assert(wave(txs, j) + 1 == wave(txs, i));
        }
    }
}

proof fn lemma_wave_has_a_cause(txs: Seq<TxView>, i: int, k: int)
    requires
        0 <= k <= i < txs.len(),
    ensures
        wave_after(txs, i, k) > 0 ==> exists|j: int|
            0 <= j < k && conflict(#[trigger] txs[j], txs[i]) && wave(txs, j) + 1 == wave_after(
                txs,
                i,
                k,
            ),
    decreases k,
{
    if k > 0 {
        lemma_wave_has_a_cause(txs, i, k - 1);
        if conflict(txs[k - 1], txs[i]) && wave(txs, k - 1) + 1 > wave_after(txs, i, k - 1) {
            assert(wave(txs, k - 1) + 1 == wave_after(txs, i, k));
        } else if wave_after(txs, i, k) > 0 {
            let j = choose|j: int|
                0 <= j < k - 1 && conflict(#[trigger] txs[j], txs[i]) && wave(txs, j) + 1
                    == wave_after(txs, i, k - 1);
            assert(conflict(txs[j], txs[i]));
        }
    }
}

/// The groups of a schedule hold every transaction once. Two of one group do
/// not conflict, so they can run side by side, and of two that conflict the
/// earlier one is in an earlier group.
pub proof fn law_groups_schedule_every_transaction(
    txs: Seq<TxView>,
    groups: Seq<Seq<usize>>,
    i: int,
    j: int,
)
    requires
        txs.len() <= usize::MAX,
        are_waves(txs, groups, txs.len() as int),
        0 <= i < txs.len(),
        0 <= j < txs.len(),
    ensures
        exists|g: int| 0 <= g < groups.len() && (#[trigger] groups[g]).contains(i as usize),
        forall|g: int, h: int|
            0 <= g < groups.len() && 0 <= h < groups.len() && (#[trigger] groups[g]).contains(
                i as usize,
            ) && (#[trigger] groups[h]).contains(j as usize) ==> {
                &&& i == j ==> g == h
                &&& i < j && conflict(txs[i], txs[j]) ==> g < h
                &&& i != j && g == h ==> !conflict(txs[i], txs[j])
            },
        forall|g: int| 0 <= g < groups.len() ==> (#[trigger] groups[g]).no_duplicates(),
{
    assert(groups[wave(txs, i) as int].contains(i as usize));
    assert forall|g: int, h: int|
        0 <= g < groups.len() && 0 <= h < groups.len() && (#[trigger] groups[g]).contains(
            i as usize,
        ) && (#[trigger] groups[h]).contains(j as usize) implies {
        &&& i == j ==> g == h
        &&& i < j && conflict(txs[i], txs[j]) ==> g < h
        &&& i != j && g == h ==> !conflict(txs[i], txs[j])
    } by {
        let a = groups[g].index_of(i as usize);
        let b = groups[h].index_of(j as usize);
        assert(groups[g][a] == i && groups[h][b] == j);
        assert(wave(txs, i) == g && wave(txs, j) == h);
        if i < j && conflict(txs[i], txs[j]) {
            law_conflicts_keep_order(txs, i, j);
        }
        if j < i && conflict(txs[i], txs[j]) {
            law_conflicts_are_about_writes(txs[i], txs[j]);
            law_conflicts_keep_order(txs, j, i);
        }
    }
    assert forall|g: int| 0 <= g < groups.len() implies (#[trigger] groups[g]).no_duplicates() by {
        assert forall|k: int, l: int| 0 <= k < l < groups[g].len() implies groups[g][k]
            != groups[g][l] by {
            assert(groups[g][k] < groups[g][l]);
        }
    }
}

/// A sandbox holds the accounts that its transaction names, as they are, and
/// no others: what it declares, its sender, its sponsor and its target.
pub proof fn law_sandboxes_hold_what_is_named(s: StateView, tx: TxView, id: AccountId)
    ensures
        ({
            let sand = sandboxed(s, tx);
            let target = match tx.kind {
                TransactionKind::Transfer { to, .. } => to,
                TransactionKind::Mint { to, .. } => to,
            };
            &&& sand.chain_id == s.chain_id && sand.minter == s.minter && sand.base_fee
                == s.base_fee
            &&& sand.accounts.contains_key(id) <==> s.accounts.contains_key(id) && (
            tx.access.reads.contains(id) || tx.access.writes.contains(id) || id == tx.sender
                || tx.sponsor == Some(id) || id == target)
            &&& sand.accounts.contains_key(id) ==> sand.accounts[id] == s.accounts[id]
        }),
{
}

/// Running a transaction in its sandbox and merging what it declared to write
/// is running it on the ledger.
pub proof fn law_sandboxed_runs_are_real_runs(s: StateView, tx: TxView)
    ensures
        sandboxed(s, tx).receipt(tx) == s.receipt(tx),
        merged(s, sandboxed(s, tx).apply(tx), tx.access.writes) == s.apply(tx),
{
    let t = sandboxed(s, tx);
    assert(state_laws::same_config(s, t));
    assert forall|id: AccountId| #[trigger] tx.access.writes.contains(id) implies
        state_laws::same_at(s, t, id) by {
        assert(touches(tx, id));
    }
    assert(touches(tx, tx.sender));
    state_laws::law_effects_depend_on_declared(s, t, tx);
    let m = merged(s, t.apply(tx), tx.access.writes);
    let a = s.apply(tx);
    assert forall|id: AccountId| #[trigger] state_laws::same_at(m, a, id) by {
        if tx.access.writes.contains(id) {
            assert(state_laws::same_at(a, t.apply(tx), id));
            if s.accounts.contains_key(id) {
                lemma_accounts_stay(s, tx, id);
            }
        } else {
            state_laws::law_writes_are_declared(s, tx, id);
        }
    }
    assert forall|id: AccountId| m.accounts.contains_key(id) == a.accounts.contains_key(id) by {
        assert(state_laws::same_at(m, a, id));
    }
    assert forall|id: AccountId| m.accounts.contains_key(id) implies m.accounts[id]
        == a.accounts[id] by {
        assert(state_laws::same_at(m, a, id));
    }
    assert(m.accounts =~= a.accounts);
    assert(m == a);
}

proof fn lemma_accounts_stay(s: StateView, tx: TxView, id: AccountId)
    requires
        s.accounts.contains_key(id),
    ensures
        s.apply(tx).accounts.contains_key(id),
{
}

/// Merging takes over the declared accounts of the sandbox and leaves all
/// others as they are.
pub proof fn law_merging_takes_over_what_is_listed(
    s: StateView,
    sandbox: StateView,
    ids: Seq<AccountId>,
    id: AccountId,
)
    ensures
        ({
            let m = merged(s, sandbox, ids);
            &&& m.chain_id == s.chain_id && m.minter == s.minter && m.base_fee == s.base_fee
            &&& ids.contains(id) && sandbox.accounts.contains_key(id) ==> m.accounts.contains_key(
                id,
            ) && m.accounts[id] == sandbox.accounts[id]
            &&& !(ids.contains(id) && sandbox.accounts.contains_key(id)) ==> {
                &&& m.accounts.contains_key(id) == s.accounts.contains_key(id)
                &&& s.accounts.contains_key(id) ==> m.accounts[id] == s.accounts[id]
            }
        }),
{
}

/// The fees of a batch are the sum of what its receipts show.
pub proof fn law_fees_add_up(a: Seq<Receipt>, b: Seq<Receipt>, r: Receipt)
    ensures
        receipt::fees_of(Seq::empty()) == 0,
        receipt::fees_of(seq![r]) == r.fee_paid,
        receipt::fees_of(a + b) == receipt::fees_of(a) + receipt::fees_of(b),
    decreases b.len(),
{
    let none = Seq::<Receipt>::empty();
    assert(seq![r].drop_last() =~= none);
    assert(receipt::fees_of(none) == 0);
    assert(receipt::fees_of(seq![r]) == receipt::fees_of(none) + r.fee_paid);
    if b.len() > 0 {
        law_fees_add_up(a, b.drop_last(), r);
        assert((a + b).drop_last() =~= a + b.drop_last());
    } else {
        assert(a + b =~= a);
    }
}

/// Ordinary batches can run: there is always room for them where the nonces are
/// not at their end and the fees fit.
pub proof fn law_ordinary_batches_can_run(s: StateView, txs: Seq<TxView>)
    requires
        forall|i: int| 0 <= i < txs.len() ==> (#[trigger] txs[i]).nonce < u64::MAX,
        s.base_fee * txs.len() <= u64::MAX,
    ensures
        can_take(s, txs),
        forall|i: int| 0 <= i < txs.len() ==> s.nonce_left(#[trigger] txs[i]),
{
    law_fees_are_bounded(s, txs);
}

} // verus!
