//! Cargo: Phi's guard sub-protocol.
//!
//! Cargo governs **figs**, the native asset units of Phi, and hardens the
//! protocol's outer surfaces with layered, deterministic defenses:
//!
//! 1. **Issuance governance** ([`FigGovernor`]): only the designated minter
//!    account may create figs, within a per-block cap. Edge nodes screen
//!    submissions ([`FigGovernor::screen_tx`]); validators enforce the same
//!    rules when voting ([`FigGovernor::audit_block`]).
//! 2. **Supply invariant tripwire**: the block audit recomputes the expected
//!    fig supply (pre-supply, plus authorized issuance, less burned fees) and
//!    refuses any block whose post-state conjures or destroys figs.
//! 3. **Brute-force throttling** ([`Throttle`]): per-peer exponential cooldowns
//!    on repeated authentication failures. Keyed by the *submitting peer*,
//!    never by the claimed sender: an attacker spraying forged transactions
//!    must not be able to lock the victim out of their own account.

use vstd::prelude::*;
use vstd::std_specs::cmp::PartialEqSpecImpl;

use crate::account::AccountId;
use crate::bytemap::{ByteMap, Key};
use crate::bytes;
use crate::executor;
use crate::hash;
use crate::receipt;
use crate::receipt::{Receipt, TxError};
use crate::state::{State, StateView};
use crate::state_laws;
use crate::text;
use crate::transaction;
use crate::transaction::{Transaction, TransactionKind, TxView};

verus! {

/// Why the guard refused a submission at the admission edge.
#[derive(Clone, Copy, Debug, PartialEq, Eq)]
pub enum GuardError {
    /// The submitting peer is in an auth-failure cooldown window.
    CoolingDown { until_ms: u64 },
    /// A mint from an account that is not the authorized minter.
    UnauthorizedMint { sender: AccountId },
    /// A mint larger than the per-block issuance cap.
    MintCapExceeded { requested: u64, cap: u64 },
}

/// Why a validator's block audit failed (the block must not be voted for).
#[derive(Clone, Copy, Debug, PartialEq, Eq)]
pub enum AuditViolation {
    /// A successful mint by an account that is not the authorized minter.
    UnauthorizedMint { tx_id: hash::Hash },
    /// Successful mints in this block exceed the per-block issuance cap.
    MintCapExceeded { minted: u64, cap: u64 },
    /// Post-state fig supply differs from pre-supply, plus authorized
    /// issuance, less burned fees: somewhere, figs were conjured or destroyed.
    SupplyMismatch { expected: u128, actual: u128 },
}

/// Issuance policy for figs. The default freezes issuance entirely.
#[derive(Clone, Copy, Debug, PartialEq, Eq)]
pub struct FigGovernor {
    /// The only account allowed to mint figs (`None` = issuance frozen).
    pub minter: Option<AccountId>,
    /// Upper bound on figs minted per block.
    pub max_mint_per_block: u64,
}

impl Default for FigGovernor {
    fn default() -> (g: FigGovernor)
        ensures
            g == (FigGovernor { minter: None, max_mint_per_block: 0 }),
    {
        FigGovernor { minter: None, max_mint_per_block: 0 }
    }
}

/// The length of two lists laid side by side.
pub open spec fn paired(txs: Seq<TxView>, receipts: Seq<Receipt>) -> int {
    if txs.len() <= receipts.len() {
        txs.len() as int
    } else {
        receipts.len() as int
    }
}

/// Whether the `i`-th pair is a mint that took effect.
pub open spec fn mints_at(txs: Seq<TxView>, receipts: Seq<Receipt>, i: int) -> bool {
    txs[i].kind is Mint && receipts[i].result is Ok
}

/// The figs that the first `n` pairs mint.
pub open spec fn minted_upto(txs: Seq<TxView>, receipts: Seq<Receipt>, n: int) -> int
    decreases n,
{
    if n <= 0 {
        0
    } else {
        minted_upto(txs, receipts, n - 1) + if mints_at(txs, receipts, n - 1) {
            txs[n - 1].kind.amount() as int
        } else {
            0
        }
    }
}

/// The figs that the first `n` pairs burn as fees.
pub open spec fn burned_upto(receipts: Seq<Receipt>, n: int) -> int
    decreases n,
{
    if n <= 0 {
        0
    } else {
        burned_upto(receipts, n - 1) + receipts[n - 1].fee_paid
    }
}

/// A number held to the range of `u64`.
pub open spec fn saturated(n: int) -> u64 {
    if n > u64::MAX {
        u64::MAX
    } else {
        n as u64
    }
}

impl FigGovernor {
    /// The first of the first `n` pairs that mints without authority.
    pub open spec fn offender(
        self,
        txs: Seq<TxView>,
        receipts: Seq<Receipt>,
        n: int,
    ) -> Option<int>
        decreases n,
    {
        if n <= 0 {
            None
        } else {
            match self.offender(txs, receipts, n - 1) {
                Some(i) => Some(i),
                None => if mints_at(txs, receipts, n - 1) && self.minter != Some(
                    txs[n - 1].sender,
                ) {
                    Some(n - 1)
                } else {
                    None
                },
            }
        }
    }

    /// The verdict on a block: every *successful* mint comes from the
    /// authorized minter, together they fit the cap, and the supply changed by
    /// what was minted and burned.
    pub open spec fn audit(
        self,
        pre: u128,
        post: u128,
        txs: Seq<TxView>,
        receipts: Seq<Receipt>,
    ) -> Result<(), AuditViolation> {
        let n = paired(txs, receipts);
        let minted = saturated(minted_upto(txs, receipts, n));
        let expected = pre + minted - burned_upto(receipts, n);
        match self.offender(txs, receipts, n) {
            Some(i) => Err(AuditViolation::UnauthorizedMint { tx_id: txs[i].id() }),
            None => if minted > self.max_mint_per_block {
                Err(AuditViolation::MintCapExceeded { minted, cap: self.max_mint_per_block })
            } else if expected != post {
                Err(
                    AuditViolation::SupplyMismatch {
                        expected: if expected < 0 {
                            0
                        } else {
                            expected as u128
                        },
                        actual: post,
                    },
                )
            } else {
                Ok(())
            },
        }
    }

    /// Whether the supply and what is minted on top of it add up in 128 bits,
    /// as far as the audit gets to adding them up.
    pub open spec fn audit_fits(
        self,
        pre: u128,
        txs: Seq<TxView>,
        receipts: Seq<Receipt>,
    ) -> bool {
        let n = paired(txs, receipts);
        let minted = saturated(minted_upto(txs, receipts, n));
        self.offender(txs, receipts, n) is None && minted <= self.max_mint_per_block ==> pre
            + minted <= u128::MAX
    }

    /// Edge-node screening: refuse obviously unauthorized issuance before it
    /// occupies mempool space. Transfers are never screened: moving one's own
    /// figs is not governed, only creating new ones.
    pub fn screen_tx(&self, tx: &Transaction) -> (r: Result<(), GuardError>)
        ensures
            r == match tx@.kind {
                TransactionKind::Transfer { .. } => Ok::<(), GuardError>(()),
                TransactionKind::Mint { amount, .. } => if self.minter != Some(tx@.sender) {
                    Err(GuardError::UnauthorizedMint { sender: tx@.sender })
                } else if amount > self.max_mint_per_block {
                    Err(
                        GuardError::MintCapExceeded {
                            requested: amount,
                            cap: self.max_mint_per_block,
                        },
                    )
                } else {
                    Ok(())
                },
            },
    {
        match &tx.kind {
            TransactionKind::Transfer { .. } => Ok(()),
            TransactionKind::Mint { amount, .. } => {
                if !self.authorizes(&tx.sender) {
                    return Err(GuardError::UnauthorizedMint { sender: tx.sender });
                }
                if *amount > self.max_mint_per_block {
                    return Err(
                        GuardError::MintCapExceeded {
                            requested: *amount,
                            cap: self.max_mint_per_block,
                        },
                    );
                }
                Ok(())
            },
        }
    }

    fn authorizes(&self, sender: &AccountId) -> (b: bool)
        ensures
            b == (self.minter == Some(*sender)),
    {
        match &self.minter {
            Some(m) => *m == *sender,
            None => false,
        }
    }

    /// Validator-side audit, run against a proposal before voting. `txs` and
    /// `receipts` must correspond pairwise (both come from the validator's own
    /// re-execution).
    pub fn audit_block(
        &self,
        pre_supply: u128,
        post_supply: u128,
        txs: &[Transaction],
        receipts: &[Receipt],
    ) -> (r: Result<(), AuditViolation>)
        requires
            self.audit_fits(pre_supply, transaction::tx_views(txs@), receipts@),
        ensures
            r == self.audit(
                pre_supply,
                post_supply,
                transaction::tx_views(txs@),
                receipts@,
            ),
    {
        let ghost views = transaction::tx_views(txs@);
        let n: usize = if txs.len() <= receipts.len() {
            txs.len()
        } else {
            receipts.len()
        };
        let mut minted: u64 = 0;
        let mut burned: u128 = 0;
        let mut i: usize = 0;
        while i < n
            invariant
                i <= n,
                n == paired(views, receipts@),
                views == transaction::tx_views(txs@),
                self.offender(views, receipts@, i as int) is None,
                minted == saturated(minted_upto(views, receipts@, i as int)),
                minted_upto(views, receipts@, i as int) >= 0,
                burned == burned_upto(receipts@, i as int),
                burned <= i * 0xffff_ffff_ffff_ffffu64,
            decreases n - i,
        {
            let tx: &Transaction = &txs[i];
            if let TransactionKind::Mint { amount, .. } = &tx.kind {
                // Failed mints created nothing.
                if receipts[i].result.is_ok() {
                    if !self.authorizes(&tx.sender) {
                        proof {
                            self.lemma_offender_stays(views, receipts@, i + 1, n as int);
                        }
                        return Err(AuditViolation::UnauthorizedMint { tx_id: tx.id() });
                    }
                    minted = match minted.checked_add(*amount) {
                        Some(sum) => sum,
                        None => u64::MAX,
                    };
                }
            }
            proof {
                assert(i * 0xffff_ffff_ffff_ffffu64 + 0xffff_ffff_ffff_ffffu64 == (i + 1)
                    * 0xffff_ffff_ffff_ffffu64) by (nonlinear_arith);
                assert((i + 1) * 0xffff_ffff_ffff_ffffu64 <= 0x1_0000_0000_0000_0000
                    * 0xffff_ffff_ffff_ffffu64) by (nonlinear_arith)
                    requires
                        i + 1 <= 0x1_0000_0000_0000_0000,
                ;
            }
            burned = burned + receipts[i].fee_paid as u128;
            i += 1;
        }
        if minted > self.max_mint_per_block {
            return Err(
                AuditViolation::MintCapExceeded { minted, cap: self.max_mint_per_block },
            );
        }
        let gross: u128 = pre_supply + minted as u128;
        if burned > gross {
            return Err(AuditViolation::SupplyMismatch { expected: 0, actual: post_supply });
        }
        let expected: u128 = gross - burned;
        if expected != post_supply {
            return Err(AuditViolation::SupplyMismatch { expected, actual: post_supply });
        }
        Ok(())
    }

    /// An offender among the first pairs is one among all.
    proof fn lemma_offender_stays(self, txs: Seq<TxView>, receipts: Seq<Receipt>, m: int, n: int)
        requires
            0 <= m <= n,
            self.offender(txs, receipts, m) is Some,
        ensures
            self.offender(txs, receipts, n) == self.offender(txs, receipts, m),
        decreases n - m,
    {
        if m < n {
            self.lemma_offender_stays(txs, receipts, m, n - 1);
        }
    }

    /// Convenience: audit a proposal between two states (callers that already
    /// re-executed can use [`FigGovernor::audit_block`] directly with their own
    /// supplies).
    pub fn audit_executed(
        &self,
        pre_state: &State,
        post_state: &State,
        txs: &[Transaction],
        receipts: &[Receipt],
    ) -> (r: Result<(), AuditViolation>)
        ensures
            r == self.audit(
                pre_state@.supply() as u128,
                post_state@.supply() as u128,
                transaction::tx_views(txs@),
                receipts@,
            ),
    {
        self.audit_block(pre_state.total_supply(), post_state.total_supply(), txs, receipts)
    }
}

proof fn lemma_honest_pairs(s: StateView, txs: Seq<TxView>, n: int)
    requires
        0 <= n <= txs.len(),
    ensures
        minted_upto(txs, s.receipts(txs), n) == state_laws::minted_by(s, txs.take(n)),
        burned_upto(s.receipts(txs), n) == receipt::fees_of(s.receipts(txs.take(n))),
    decreases n,
{
    if n > 0 {
        lemma_honest_pairs(s, txs, n - 1);
        assert(txs.take(n).drop_last() =~= txs.take(n - 1));
        executor::lemma_receipt_at(s, txs, n - 1);
        executor::lemma_receipts_len(s, txs.take(n - 1));
        assert(s.receipts(txs.take(n)).drop_last() =~= s.receipts(txs.take(n - 1)));
    }
}

proof fn lemma_no_offender(g: FigGovernor, s: StateView, txs: Seq<TxView>, n: int)
    requires
        0 <= n <= txs.len(),
        s.minter == g.minter,
    ensures
        g.offender(txs, s.receipts(txs), n) is None,
    decreases n,
{
    if n > 0 {
        lemma_no_offender(g, s, txs, n - 1);
        executor::lemma_receipt_at(s, txs, n - 1);
        executor::lemma_config_stays(s, txs.take(n - 1));
    }
}

/// A block that the ledger really executed passes the audit of a governor with
/// the ledger's minter, as long as it mints no more than the cap.
pub proof fn law_honest_blocks_pass(g: FigGovernor, s: StateView, txs: Seq<TxView>)
    requires
        s.well_keyed(),
        s.minter == g.minter,
        state_laws::minted_by(s, txs) <= g.max_mint_per_block,
        s.supply() <= u128::MAX,
        s.apply_all(txs).supply() <= u128::MAX,
    ensures
        g.audit(
            s.supply() as u128,
            s.apply_all(txs).supply() as u128,
            txs,
            s.receipts(txs),
        ) is Ok,
{
    let n = txs.len() as int;
    assert(txs.take(n) =~= txs);
    executor::lemma_receipts_len(s, txs);
    lemma_honest_pairs(s, txs, n);
    lemma_no_offender(g, s, txs, n);
    state_laws::law_block_supply(s, txs);
    lemma_supply_nonneg(s);
    lemma_supply_nonneg(s.apply_all(txs));
    lemma_minted_nonneg(txs, s.receipts(txs), n);
}

proof fn lemma_supply_nonneg(s: StateView)
    requires
        s.well_keyed(),
    ensures
        s.supply() >= 0,
{
    assert(s.balances().dom() =~= s.accounts.dom());
    crate::sums::lemma_total_nonneg(s.balances());
}

proof fn lemma_minted_nonneg(txs: Seq<TxView>, receipts: Seq<Receipt>, n: int)
    ensures
        minted_upto(txs, receipts, n) >= 0,
    decreases n,
{
    if n > 0 {
        lemma_minted_nonneg(txs, receipts, n - 1);
    }
}

proof fn lemma_offender_none(g: FigGovernor, txs: Seq<TxView>, receipts: Seq<Receipt>, n: int, i: int)
    requires
        0 <= i < n,
        g.offender(txs, receipts, n) is None,
    ensures
        mints_at(txs, receipts, i) ==> g.minter == Some(txs[i].sender),
    decreases n,
{
    if i < n - 1 {
        lemma_offender_none(g, txs, receipts, n - 1, i);
    }
}

/// A block that passes the audit mints only by the minter's hand and within
/// the cap, and its supply changed by exactly what it minted and burned.
pub proof fn law_audit_is_a_tripwire(
    g: FigGovernor,
    pre: u128,
    post: u128,
    txs: Seq<TxView>,
    receipts: Seq<Receipt>,
    i: int,
)
    requires
        g.audit(pre, post, txs, receipts) is Ok,
    ensures
        ({
            let n = paired(txs, receipts);
            let minted = saturated(minted_upto(txs, receipts, n));
            &&& minted <= g.max_mint_per_block
            &&& post == pre + minted - burned_upto(receipts, n)
            &&& 0 <= i < n && mints_at(txs, receipts, i) ==> g.minter == Some(txs[i].sender)
        }),
{
    let n = paired(txs, receipts);
    if 0 <= i < n {
        lemma_offender_none(g, txs, receipts, n, i);
    }
}

/// Identity of a submitting peer at the admission edge (network identity, not
/// an on-chain account).
#[derive(Clone, Copy, Eq, Hash, Debug)]
pub struct PeerId(pub [u8; 32]);

impl PartialEqSpecImpl for PeerId {
    open spec fn obeys_eq_spec() -> bool {
        true
    }

    open spec fn eq_spec(&self, other: &PeerId) -> bool {
        *self == *other
    }
}

impl PartialEq for PeerId {
    fn eq(&self, other: &PeerId) -> (same: bool) {
        proof {
            if self.0@ == other.0@ {
                assert(self.0 =~= other.0);
            }
        }
        bytes::bytes_eq(&self.0, &other.0)
    }
}

impl PeerId {
    /// Deterministic peer id from a label (test/simulation helper; real edges
    /// derive this from the transport identity).
    pub fn from_label(label: &str) -> (p: PeerId)
        ensures
            p == PeerId(
                hash::tagged(text::utf8("phi:peer"@), seq![text::utf8(label@)]).0,
            ),
    {
        let parts: [&[u8]; 1] = [label.as_bytes()];
        assert(hash::part_views(parts@) =~= seq![text::utf8(label@)]);
        PeerId(hash::Hash::of_tagged("phi:peer".as_bytes(), &parts).0)
    }
}

/// Throttle configuration. Failures up to `free_failures` are tolerated
/// (legitimate users fat-finger things); each failure beyond that doubles the
/// cooldown, capped at `max_cooldown_ms`.
#[derive(Clone, Copy, Debug)]
pub struct ThrottleConfig {
    pub free_failures: u32,
    pub base_cooldown_ms: u64,
    pub max_cooldown_ms: u64,
}

impl Default for ThrottleConfig {
    fn default() -> (c: ThrottleConfig)
        ensures
            c == (ThrottleConfig {
                free_failures: 3,
                base_cooldown_ms: 1_000,
                max_cooldown_ms: 3_600_000,
            }),
    {
        ThrottleConfig {
            free_failures: 3,
            base_cooldown_ms: 1_000,
            max_cooldown_ms: 3_600_000,  // 1h ceiling
        }
    }
}

/// What the throttle remembers of a peer.
#[derive(Clone, Copy, Debug)]
pub struct PeerRecord {
    pub consecutive_failures: u32,
    pub cooldown_until_ms: u64,
}

/// Per-peer exponential-backoff throttle on authentication failures.
/// Deterministic: time is supplied by the caller, so simulations and tests
/// replay exactly.
#[derive(Debug)]
pub struct Throttle {
    config: ThrottleConfig,
    peers: ByteMap<PeerRecord>,
}

/// The contents of a [`Throttle`].
#[verifier::ext_equal]
pub struct ThrottleView {
    pub config: ThrottleConfig,
    pub peers: Map<PeerId, PeerRecord>,
}

spec fn peer_records(m: Map<Key, PeerRecord>) -> Map<PeerId, PeerRecord> {
    Map::new(|p: PeerId| m.contains_key(p.0), |p: PeerId| m[p.0])
}

impl View for Throttle {
    type V = ThrottleView;

    closed spec fn view(&self) -> ThrottleView {
        ThrottleView { config: self.config, peers: peer_records(self.peers@) }
    }
}

/// `x`, doubled `n` times.
pub open spec fn doubled(x: nat, n: nat) -> nat
    decreases n,
{
    if n == 0 {
        x
    } else {
        2 * doubled(x, (n - 1) as nat)
    }
}

/// A left shift that saturates: at an exponent of 64 or more, and wherever a
/// bit would be lost.
pub open spec fn shifted(x: u64, exponent: u32) -> u64 {
    if exponent >= 64 || doubled(x as nat, exponent as nat) > u64::MAX {
        u64::MAX
    } else {
        doubled(x as nat, exponent as nat) as u64
    }
}

pub trait SaturatingShl: Sized {
    fn saturating_shl(self, exponent: u32) -> Self;
}

impl SaturatingShl for u64 {
    fn saturating_shl(self, exponent: u32) -> (r: u64)
        ensures
            r == shifted(self, exponent),
    {
        if exponent >= 64 {
            return u64::MAX;
        }
        let mut v: u64 = self;
        let mut i: u32 = 0;
        while i < exponent
            invariant
                i <= exponent < 64,
                v == doubled(self as nat, i as nat),
            decreases exponent - i,
        {
            if v > u64::MAX / 2 {
                proof {
                    lemma_doubled_grows(self as nat, (i + 1) as nat, exponent as nat);
                }
                return u64::MAX;
            }
            v = v * 2;
            i += 1;
        }
        v
    }
}

proof fn lemma_doubled_grows(x: nat, m: nat, n: nat)
    requires
        m <= n,
    ensures
        doubled(x, m) <= doubled(x, n),
    decreases n,
{
    if m < n {
        lemma_doubled_grows(x, m, (n - 1) as nat);
    }
}

impl ThrottleView {
    /// The record of a peer; nothing is held against an unknown one.
    pub open spec fn record(self, peer: PeerId) -> PeerRecord {
        if self.peers.contains_key(peer) {
            self.peers[peer]
        } else {
            PeerRecord { consecutive_failures: 0, cooldown_until_ms: 0 }
        }
    }

    /// The cooldown after the given number of failures in a row.
    pub open spec fn cooldown(self, failures: int) -> u64 {
        let exponent = failures - self.config.free_failures - 1;
        let raw = shifted(self.config.base_cooldown_ms, exponent as u32);
        if raw <= self.config.max_cooldown_ms {
            raw
        } else {
            self.config.max_cooldown_ms
        }
    }

    /// The record of a peer after one more failure.
    pub open spec fn failed(self, peer: PeerId, now_ms: u64) -> PeerRecord {
        let r = self.record(peer);
        let failures = r.consecutive_failures + 1;
        PeerRecord {
            consecutive_failures: failures as u32,
            cooldown_until_ms: if failures > self.config.free_failures {
                saturated(now_ms + self.cooldown(failures))
            } else {
                r.cooldown_until_ms
            },
        }
    }
}

impl Throttle {
    pub fn new(config: ThrottleConfig) -> (t: Throttle)
        ensures
            t@ == (ThrottleView { config, peers: Map::empty() }),
    {
        let t = Throttle { config, peers: ByteMap::new() };
        assert(t@.peers =~= Map::<PeerId, PeerRecord>::empty());
        t
    }

    /// Gate a submission from `peer` at time `now_ms`. Call before doing any
    /// signature or stateful work.
    pub fn check(&self, peer: &PeerId, now_ms: u64) -> (r: Result<(), GuardError>)
        ensures
            r == if self@.record(*peer).cooldown_until_ms > now_ms {
                Err::<(), GuardError>(
                    GuardError::CoolingDown { until_ms: self@.record(*peer).cooldown_until_ms },
                )
            } else {
                Ok(())
            },
    {
        match self.peers.get(&peer.0) {
            Some(record) => if record.cooldown_until_ms > now_ms {
                Err(GuardError::CoolingDown { until_ms: record.cooldown_until_ms })
            } else {
                Ok(())
            },
            None => Ok(()),
        }
    }

    /// How many failures in a row are held against a peer.
    pub fn failures(&self, peer: &PeerId) -> (n: u32)
        ensures
            n == self@.record(*peer).consecutive_failures,
    {
        match self.peers.get(&peer.0) {
            Some(record) => record.consecutive_failures,
            None => 0,
        }
    }

    /// Record an authentication failure (e.g. `TxError::AuthFailed` or
    /// `RevealMismatch` at admission) from `peer`.
    pub fn record_failure(&mut self, peer: PeerId, now_ms: u64)
        requires
            old(self)@.record(peer).consecutive_failures < u32::MAX,
        ensures
            final(self)@ == (ThrottleView {
                peers: old(self)@.peers.insert(peer, old(self)@.failed(peer, now_ms)),
                ..old(self)@
            }),
    {
        let mut record: PeerRecord = match self.peers.get(&peer.0) {
            Some(r) => *r,
            None => PeerRecord { consecutive_failures: 0, cooldown_until_ms: 0 },
        };
        record.consecutive_failures = record.consecutive_failures + 1;
        if record.consecutive_failures > self.config.free_failures {
            let exponent: u32 = record.consecutive_failures - self.config.free_failures - 1;
            let shl: u64 = self.config.base_cooldown_ms.saturating_shl(exponent);
            let cooldown: u64 = if shl <= self.config.max_cooldown_ms {
                shl
            } else {
                self.config.max_cooldown_ms
            };
            record.cooldown_until_ms = match now_ms.checked_add(cooldown) {
                Some(t) => t,
                None => u64::MAX,
            };
        }
        self.peers.insert(peer.0, record);
        assert(self@ =~= ThrottleView {
            peers: old(self)@.peers.insert(peer, old(self)@.failed(peer, now_ms)),
            ..old(self)@
        });
    }

    /// Record a successful authenticated submission: the peer's failure streak
    /// resets.
    pub fn record_success(&mut self, peer: &PeerId)
        ensures
            final(self)@ == (ThrottleView {
                peers: old(self)@.peers.remove(*peer),
                ..old(self)@
            }),
    {
        self.peers.remove(&peer.0);
        assert(self@ =~= ThrottleView { peers: old(self)@.peers.remove(*peer), ..old(self)@ });
    }

    /// True when this admission error should count against the submitting
    /// peer's failure budget (authentication-shaped failures only: an honest
    /// user's insufficient balance is not a probe).
    pub fn counts_as_auth_failure(error: &TxError) -> (b: bool)
        ensures
            b == (error is AuthFailed || error is RevealMismatch),
    {
        match error {
            TxError::AuthFailed | TxError::RevealMismatch => true,
            _ => false,
        }
    }
}

/// A peer's failures are held against that peer alone, and never for longer
/// than the configured ceiling.
pub proof fn law_throttle_is_per_peer(t: ThrottleView, peer: PeerId, other: PeerId, now_ms: u64)
    requires
        peer != other,
        t.record(peer).consecutive_failures < u32::MAX,
    ensures
        ({
            let after = ThrottleView { peers: t.peers.insert(peer, t.failed(peer, now_ms)), ..t };
            &&& after.record(other) == t.record(other)
            &&& after.record(peer).consecutive_failures > t.config.free_failures
                ==> after.record(peer).cooldown_until_ms <= now_ms + t.config.max_cooldown_ms
        }),
{
}

/// After a success nothing is held against the peer.
pub proof fn law_success_resets(t: ThrottleView, peer: PeerId)
    ensures
        (ThrottleView { peers: t.peers.remove(peer), ..t }).record(peer) == (PeerRecord {
            consecutive_failures: 0,
            cooldown_until_ms: 0,
        }),
{
}

/// What a throttle is told of a peer.
pub enum Contact {
    Failure { peer: PeerId, now_ms: u64 },
    Success { peer: PeerId },
}

/// How many failures in a row a peer has at the end of a history.
pub open spec fn streak(history: Seq<Contact>, peer: PeerId) -> nat
    decreases history.len(),
{
    if history.len() == 0 {
        0
    } else {
        let before = streak(history.drop_last(), peer);
        match history.last() {
            Contact::Failure { peer: p, .. } => if p == peer {
                before + 1
            } else {
                before
            },
            Contact::Success { peer: p } => if p == peer {
                0
            } else {
                before
            },
        }
    }
}

impl ThrottleView {
    /// The throttle after it has been told one thing more.
    pub open spec fn told(self, contact: Contact) -> ThrottleView {
        match contact {
            Contact::Failure { peer, now_ms } => ThrottleView {
                peers: self.peers.insert(peer, self.failed(peer, now_ms)),
                ..self
            },
            Contact::Success { peer } => ThrottleView { peers: self.peers.remove(peer), ..self },
        }
    }
}

/// A new throttle after a whole history.
pub open spec fn after_history(config: ThrottleConfig, history: Seq<Contact>) -> ThrottleView
    decreases history.len(),
{
    if history.len() == 0 {
        ThrottleView { config, peers: Map::empty() }
    } else {
        after_history(config, history.drop_last()).told(history.last())
    }
}

/// Whether no streak of a history is too long to count in 32 bits.
pub open spec fn countable(history: Seq<Contact>) -> bool {
    forall|i: int, peer: PeerId|
        0 <= i <= history.len() ==> #[trigger] streak(history.take(i), peer) <= u32::MAX
}

proof fn lemma_countable_prefix(history: Seq<Contact>)
    requires
        history.len() > 0,
        countable(history),
    ensures
        countable(history.drop_last()),
{
    let rest = history.drop_last();
    assert forall|i: int, peer: PeerId| 0 <= i <= rest.len() implies #[trigger] streak(
        rest.take(i),
        peer,
    ) <= u32::MAX by {
        assert(rest.take(i) =~= history.take(i));
        assert(streak(history.take(i), peer) <= u32::MAX);
    }
}

/// Over every history, a throttle holds a peer's failures since its last
/// success against it, and no cooldown runs while they are within the free
/// ones.
pub proof fn law_free_failures_are_free(
    config: ThrottleConfig,
    history: Seq<Contact>,
    peer: PeerId,
)
    requires
        countable(history),
    ensures
        after_history(config, history).config == config,
        after_history(config, history).record(peer).consecutive_failures == streak(history, peer),
        streak(history, peer) <= config.free_failures ==> after_history(config, history).record(
            peer,
        ).cooldown_until_ms == 0,
    decreases history.len(),
{
    if history.len() > 0 {
        lemma_countable_prefix(history);
        law_free_failures_are_free(config, history.drop_last(), peer);
        assert(history.take(history.len() as int) =~= history);
        assert(streak(history.take(history.len() as int), peer) <= u32::MAX);
    }
}

/// `a`, or `b` if that is less.
pub open spec fn lesser(a: int, b: int) -> int {
    if a <= b {
        a
    } else {
        b
    }
}

proof fn lemma_doubled_scales(x: nat, n: nat)
    requires
        x >= 1,
    ensures
        doubled(x, n) >= doubled(1, n),
    decreases n,
{
    if n > 0 {
        lemma_doubled_scales(x, (n - 1) as nat);
    }
}

proof fn lemma_doubled_by_eight(n: nat)
    ensures
        doubled(1, n + 8) == 256 * doubled(1, n),
{
    reveal_with_fuel(doubled, 9);
}

proof fn lemma_doubled_to_the_top()
    ensures
        doubled(1, 64) == 0x1_0000_0000_0000_0000,
{
    assert(doubled(1, 0) == 1);
    lemma_doubled_by_eight(0);
    lemma_doubled_by_eight(8);
    lemma_doubled_by_eight(16);
    lemma_doubled_by_eight(24);
    lemma_doubled_by_eight(32);
    lemma_doubled_by_eight(40);
    lemma_doubled_by_eight(48);
    lemma_doubled_by_eight(56);
}

/// Whatever came before, one more failure starts a cooldown of the base time,
/// doubled for every failure beyond the free ones and one, and capped, if the
/// free ones are used up; the other peers are as they were.
pub proof fn law_failures_back_off(
    config: ThrottleConfig,
    history: Seq<Contact>,
    peer: PeerId,
    now_ms: u64,
    other: PeerId,
)
    requires
        countable(history.push(Contact::Failure { peer, now_ms })),
        config.base_cooldown_ms > 0,
    ensures
        ({
            let before = after_history(config, history);
            let after = after_history(config, history.push(Contact::Failure { peer, now_ms }));
            let k = streak(history, peer);
            &&& k + 1 <= config.free_failures ==> after.record(peer).cooldown_until_ms == 0
            &&& k + 1 > config.free_failures ==> after.record(peer).cooldown_until_ms == lesser(
                now_ms + lesser(
                    doubled(
                        config.base_cooldown_ms as nat,
                        (k - config.free_failures) as nat,
                    ) as int,
                    config.max_cooldown_ms as int,
                ),
                u64::MAX as int,
            )
            &&& other != peer ==> after.record(other) == before.record(other)
        }),
{
    let longer = history.push(Contact::Failure { peer, now_ms });
    assert(longer.drop_last() =~= history);
    lemma_countable_prefix(longer);
    law_free_failures_are_free(config, history, peer);
    law_free_failures_are_free(config, longer, peer);
    assert(longer.take(longer.len() as int) =~= longer);
    assert(streak(longer.take(longer.len() as int), peer) <= u32::MAX);
    let k = streak(history, peer);
    assert(streak(longer, peer) == k + 1);
    if k + 1 > config.free_failures {
        let exponent = (k - config.free_failures) as nat;
        if exponent >= 64 {
            lemma_doubled_to_the_top();
            lemma_doubled_scales(config.base_cooldown_ms as nat, 64);
            lemma_doubled_grows(config.base_cooldown_ms as nat, 64, exponent);
        }
    }
}

/// What a block mints is the sum of the amounts of its successful mints, and
/// what it burns is the sum of the fees that its receipts show.
pub proof fn law_audited_sums(txs: Seq<TxView>, receipts: Seq<Receipt>, n: int)
    requires
        0 <= n < txs.len(),
        n < receipts.len(),
    ensures
        minted_upto(txs, receipts, 0) == 0,
        minted_upto(txs, receipts, n + 1) - minted_upto(txs, receipts, n) == (match (
            txs[n].kind,
            receipts[n].result,
        ) {
            (TransactionKind::Mint { amount, .. }, Ok(_)) => amount as int,
            _ => 0,
        }),
        burned_upto(receipts, n) == receipt::fees_of(receipts.take(n)),
        burned_upto(receipts, n + 1) == receipt::fees_of(receipts.take(n + 1)),
    decreases n,
{
    assert(receipts.take(n + 1).drop_last() =~= receipts.take(n));
    if n > 0 {
        law_audited_sums(txs, receipts, n - 1);
    } else {
        assert(receipts.take(0) =~= Seq::<Receipt>::empty());
        assert(receipt::fees_of(receipts.take(0)) == 0);
    }
}

/// The audit passes exactly if every successful mint is the authority's, what
/// they create is within the cap, and the supply has changed by what was minted
/// and burned, figs for figs.
pub proof fn law_audits_reconcile(
    g: FigGovernor,
    pre: u128,
    post: u128,
    txs: Seq<TxView>,
    receipts: Seq<Receipt>,
)
    requires
        txs.len() == receipts.len(),
    ensures
        g.audit(pre, post, txs, receipts) is Ok <==> {
            let n = txs.len() as int;
            let minted = minted_upto(txs, receipts, n);
            let issued = if minted > u64::MAX {
                u64::MAX as int
            } else {
                minted
            };
            &&& forall|i: int|
                0 <= i < n && (#[trigger] txs[i]).kind is Mint && receipts[i].result is Ok
                    ==> g.minter == Some(txs[i].sender)
            &&& issued <= g.max_mint_per_block
            &&& post == pre + issued - burned_upto(receipts, n)
        },
{
    lemma_first_offender(g, txs, receipts, txs.len() as int);
    lemma_minted_nonneg(txs, receipts, txs.len() as int);
}

/// A violation names what is wrong: the first successful mint that is not the
/// authority's, else by how much the cap was exceeded, else the supply that was
/// expected and the one that was found.
pub proof fn law_violations_name_the_breach(
    g: FigGovernor,
    pre: u128,
    post: u128,
    txs: Seq<TxView>,
    receipts: Seq<Receipt>,
)
    requires
        txs.len() == receipts.len(),
    ensures
        g.audit(pre, post, txs, receipts) matches Err(v) ==> {
            let n = txs.len() as int;
            let minted = minted_upto(txs, receipts, n);
            let all_authorized = forall|i: int|
                0 <= i < n && (#[trigger] txs[i]).kind is Mint && receipts[i].result is Ok
                    ==> g.minter == Some(txs[i].sender);
            match v {
                AuditViolation::UnauthorizedMint { tx_id } => exists|i: int|
                    {
                        &&& 0 <= i < n && tx_id == (#[trigger] txs[i]).id()
                        &&& txs[i].kind is Mint && receipts[i].result is Ok
                        &&& g.minter != Some(txs[i].sender)
                        &&& forall|j: int|
                            0 <= j < i && (#[trigger] txs[j]).kind is Mint && receipts[j].result
                                is Ok ==> g.minter == Some(txs[j].sender)
                    },
                AuditViolation::MintCapExceeded { minted: shown, cap } => {
                    &&& all_authorized
                    &&& cap == g.max_mint_per_block && shown > cap
                    &&& minted <= u64::MAX ==> shown == minted
                },
                AuditViolation::SupplyMismatch { expected, actual } => {
                    &&& all_authorized
                    &&& actual == post
                    &&& minted <= u64::MAX ==> minted <= g.max_mint_per_block
                    &&& minted <= u64::MAX && 0 <= pre + minted - burned_upto(receipts, n)
                        <= u128::MAX ==> expected == pre + minted - burned_upto(receipts, n)
                        && expected != actual
                },
            }
        },
{
    let n = txs.len() as int;
    lemma_first_offender(g, txs, receipts, n);
    lemma_minted_nonneg(txs, receipts, n);
    if let Some(i) = g.offender(txs, receipts, n) {
        assert(txs[i].id() == txs[i].id());
    }
}

/// The offender is the first successful mint that is not the authority's.
proof fn lemma_first_offender(g: FigGovernor, txs: Seq<TxView>, receipts: Seq<Receipt>, n: int)
    requires
        0 <= n <= txs.len(),
        n <= receipts.len(),
    ensures
        match g.offender(txs, receipts, n) {
            None => forall|i: int|
                0 <= i < n && (#[trigger] txs[i]).kind is Mint && receipts[i].result is Ok
                    ==> g.minter == Some(txs[i].sender),
            Some(i) => {
                &&& 0 <= i < n
                &&& txs[i].kind is Mint && receipts[i].result is Ok
                &&& g.minter != Some(txs[i].sender)
                &&& forall|j: int|
                    0 <= j < i && (#[trigger] txs[j]).kind is Mint && receipts[j].result is Ok
                        ==> g.minter == Some(txs[j].sender)
            },
        },
    decreases n,
{
    if n > 0 {
        lemma_first_offender(g, txs, receipts, n - 1);
    }
}

/// A cooldown doubles with every step: shifting multiplies by a power of two,
/// and stops at the largest time there is.
pub proof fn law_shifts_double(x: u64, exponent: u32)
    requires
        exponent < 64,
    ensures
        shifted(x, 0) == x,
        exponent < 63 ==> shifted(x, (exponent + 1) as u32) == lesser(
            2 * shifted(x, exponent),
            u64::MAX as int,
        ),
        shifted(x, exponent) >= x,
    decreases exponent,
{
    reveal_with_fuel(doubled, 2);
    if exponent > 0 {
        law_shifts_double(x, (exponent - 1) as u32);
    }
    assert(doubled(x as nat, (exponent + 1) as nat) == 2 * doubled(x as nat, exponent as nat));
}

/// Every supply that leaves room for one block's mints can be audited.
pub proof fn law_ordinary_supplies_can_be_audited(
    g: FigGovernor,
    pre: u128,
    txs: Seq<TxView>,
    receipts: Seq<Receipt>,
)
    ensures
        pre + u64::MAX <= u128::MAX ==> g.audit_fits(pre, txs, receipts),
        (forall|i: int| 0 <= i < txs.len() ==> (#[trigger] txs[i]).kind is Transfer)
            ==> g.audit_fits(pre, txs, receipts),
{
    if forall|i: int| 0 <= i < txs.len() ==> (#[trigger] txs[i]).kind is Transfer {
        lemma_transfers_mint_nothing(txs, receipts, paired(txs, receipts));
    }
}

proof fn lemma_transfers_mint_nothing(txs: Seq<TxView>, receipts: Seq<Receipt>, n: int)
    requires
        0 <= n <= txs.len(),
        forall|i: int| 0 <= i < txs.len() ==> (#[trigger] txs[i]).kind is Transfer,
    ensures
        minted_upto(txs, receipts, n) == 0,
    decreases n,
{
    if n > 0 {
        lemma_transfers_mint_nothing(txs, receipts, n - 1);
        assert(txs[n - 1].kind is Transfer);
    }
}

} // verus!
