//! Trust-minimized asset bridge built on the light clients.
//!
//! Inbound (lock, then release): a foreign chain locks an asset and commits a
//! [`CrossChainEvent`]. A relayer submits the foreign headers and an inclusion
//! proof; the bridge verifies the event against the foreign chain's own
//! consensus and, once, releases the matching amount from a pre-funded
//! **reserve account** to the beneficiary. Releasing from a reserve (rather
//! than minting) keeps the total fig supply constant.
//!
//! Outbound (lock into the reserve, then release abroad): the bridge emits a
//! sequenced [`ReleaseInstruction`] that the foreign chain's contract honors.
//!
//! Replay is prevented in both directions: inbound by recording redeemed
//! foreign sequences, outbound by a strictly increasing counter that the
//! foreign side tracks.

use std::collections::{BTreeMap, BTreeSet};
use vstd::prelude::*;

use crate::account;
use crate::account::{AccountId, AuthPolicy};
use crate::crypto;
use crate::crypto::Keypair;
use crate::hash;
use crate::ledger_laws;
use crate::interop::light_client;
use crate::interop::light_client::{
    ClientBox, ConsensusProof, CrossChainEvent, EventProof, ForeignChainId, ForeignHeader,
    InteropError, IntoClientBox,
};
use crate::merkle;
use crate::state;
use crate::state_laws;
use crate::transaction;
use crate::transaction::Transaction;

verus! {

/// An instruction for a foreign chain to release `amount` to
/// `foreign_beneficiary`, in response to figs locked into the reserve.
/// `outbound_sequence` is strictly increasing per foreign chain; the foreign
/// contract must honor each sequence at most once.
#[derive(Clone, Copy, Debug, PartialEq, Eq)]
pub struct ReleaseInstruction {
    pub foreign_chain: ForeignChainId,
    pub outbound_sequence: u64,
    pub foreign_beneficiary: [u8; 32],
    pub amount: u64,
}

/// What the bridge holds for one foreign chain.
struct ChainRecord {
    client: ClientBox,
    /// Redeemed inbound sequences (replay protection).
    redeemed: BTreeSet<u64>,
    /// Next outbound sequence.
    outbound_seq: u64,
}

/// The contents of the bridge's record of one foreign chain.
#[verifier::ext_equal]
pub struct RecordView {
    pub client: light_client::ClientView,
    pub redeemed: Set<u64>,
    pub outbound_seq: u64,
}

impl View for ChainRecord {
    type V = RecordView;

    closed spec fn view(&self) -> RecordView {
        RecordView {
            client: self.client@,
            redeemed: self.redeemed@,
            outbound_seq: self.outbound_seq,
        }
    }
}

/// The bridge: a registry of foreign light clients plus the reserve account
/// that backs wrapped balances.
pub struct BridgeHub {
    phi_chain_id: u64,
    reserve_keypair: Keypair,
    reserve_account: AccountId,
    chains: BTreeMap<u64, ChainRecord>,
}

/// The contents of a [`BridgeHub`].
#[verifier::ext_equal]
pub struct HubView {
    pub phi_chain_id: u64,
    /// The secret seed of the reserve's keypair.
    pub seed: Seq<u8>,
    pub reserve: AccountId,
    pub chains: Map<u64, RecordView>,
}

impl View for BridgeHub {
    type V = HubView;

    closed spec fn view(&self) -> HubView {
        HubView {
            phi_chain_id: self.phi_chain_id,
            seed: self.reserve_keypair@,
            reserve: self.reserve_account,
            chains: Map::new(
                |id: u64| self.chains@.contains_key(id),
                |id: u64| self.chains@[id]@,
            ),
        }
    }
}

/// The account that the keypair with this seed controls.
pub open spec fn reserve_of(seed: Seq<u8>) -> AccountId {
    account::auth_id(account::PolicyView::SingleKey(crypto::public_key_of(seed)), 0)
}

impl HubView {
    /// The hub with another record for one chain.
    pub open spec fn with_record(self, id: ForeignChainId, record: RecordView) -> HubView {
        HubView { chains: self.chains.insert(id.0, record), ..self }
    }

    /// The hub once a client has been registered.
    pub open spec fn registered(
        self,
        id: ForeignChainId,
        client: light_client::ClientView,
    ) -> HubView {
        self.with_record(id, RecordView { client, redeemed: Set::empty(), outbound_seq: 0 })
    }

    /// The verdict of a chain's light client on a header.
    pub open spec fn header_verdict(
        self,
        id: ForeignChainId,
        header: ForeignHeader,
        evidence: light_client::ProofView,
    ) -> Result<(), InteropError> {
        if !self.chains.contains_key(id.0) {
            Err(InteropError::UnknownChain)
        } else {
            let client = self.chains[id.0].client;
            (client.rules)(client.chain, header, evidence)
        }
    }

    /// The hub once a chain's light client has adopted a header.
    pub open spec fn adopted(self, id: ForeignChainId, header: ForeignHeader) -> HubView {
        let record = self.chains[id.0];
        self.with_record(
            id,
            RecordView {
                client: light_client::ClientView {
                    chain: record.client.chain.append(header),
                    rules: record.client.rules,
                },
                ..record
            },
        )
    }

    /// Whether a foreign lock can be redeemed: its chain is known, the proof
    /// places it under a trusted header, and its sequence is still unused.
    pub open spec fn redemption(
        self,
        event: CrossChainEvent,
        inclusion: light_client::EventProofView,
    ) -> Result<(), InteropError> {
        if !self.chains.contains_key(event.foreign_chain.0) {
            Err(InteropError::UnknownChain)
        } else {
            let record = self.chains[event.foreign_chain.0];
            if record.client.chain.inclusion(event.digest(), inclusion) is Err {
                record.client.chain.inclusion(event.digest(), inclusion)
            } else if record.redeemed.contains(event.sequence) {
                Err(InteropError::AlreadyProcessed { sequence: event.sequence })
            } else {
                Ok(())
            }
        }
    }

    /// The hub once a foreign lock has been redeemed.
    pub open spec fn redeemed(self, event: CrossChainEvent) -> HubView {
        let record = self.chains[event.foreign_chain.0];
        self.with_record(
            event.foreign_chain,
            RecordView { redeemed: record.redeemed.insert(event.sequence), ..record },
        )
    }

    /// The transfer that pays a foreign lock out, before it is signed.
    pub open spec fn payout(self, event: CrossChainEvent, reserve_nonce: u64) -> transaction::TxView {
        transaction::TxView {
            chain_id: self.phi_chain_id,
            ..transaction::TxView::plain(
                self.reserve,
                reserve_nonce,
                transaction::TransactionKind::Transfer {
                    to: event.beneficiary,
                    amount: event.amount,
                },
            )
        }
    }

    /// The transfer that pays a foreign lock out, signed with the reserve key.
    pub open spec fn release(self, event: CrossChainEvent, reserve_nonce: u64) -> transaction::TxView {
        let payout = self.payout(event, reserve_nonce);
        transaction::TxView {
            signatures: seq![crypto::signature_of(self.seed, payout.id()@)],
            ..payout
        }
    }

    /// Whether the signature under a release verifies under the reserve key,
    /// unless its first half encodes the identity point.
    pub open spec fn release_verifies(self, event: CrossChainEvent, reserve_nonce: u64) -> bool {
        let release = self.release(event, reserve_nonce);
        release.signatures[0]@.take(32) != crypto::identity_point() ==> state::satisfied(
            account::PolicyView::SingleKey(crypto::public_key_of(self.seed)),
            release.id()@,
            release.signatures,
        )
    }

    /// The hub once it has emitted a release instruction.
    pub open spec fn exported(self, id: ForeignChainId) -> HubView {
        let record = self.chains[id.0];
        self.with_record(
            id,
            RecordView { outbound_seq: (record.outbound_seq + 1) as u64, ..record },
        )
    }
}

impl BridgeHub {
    /// Create a bridge whose reserve is controlled by `reserve_keypair` on the
    /// network `phi_chain_id`. The reserve account id is derived from the
    /// key's single-key auth policy; fund it at genesis up to the
    /// wrapped-asset ceiling.
    pub fn new(phi_chain_id: u64, reserve_keypair: Keypair) -> (hub: BridgeHub)
        ensures
            hub@ == (HubView {
                phi_chain_id,
                seed: reserve_keypair@,
                reserve: reserve_of(reserve_keypair@),
                chains: Map::empty(),
            }),
    {
        let policy = AuthPolicy::SingleKey(reserve_keypair.public());
        let reserve_account = AccountId::from_auth(&policy, 0);
        let hub = BridgeHub {
            phi_chain_id,
            reserve_keypair,
            reserve_account,
            chains: BTreeMap::new(),
        };
        assert(hub@.chains =~= Map::empty());
        hub
    }

    /// The reserve account id (fund this at genesis; its auth policy is
    /// `SingleKey` over the reserve key).
    pub fn reserve_account(&self) -> (id: AccountId)
        ensures
            id == self@.reserve,
    {
        self.reserve_account
    }

    /// Register a foreign chain's light client. Fails if one already exists.
    pub fn register_chain<C: IntoClientBox>(&mut self, id: ForeignChainId, client: C) -> (res:
        Result<(), InteropError>)
        ensures
            res == if old(self)@.chains.contains_key(id.0) {
                Err::<(), InteropError>(InteropError::ChainAlreadyRegistered)
            } else {
                Ok(())
            },
            final(self)@ == if res is Ok {
                old(self)@.registered(
                    id,
                    light_client::ClientView { chain: client.chain(), rules: client.rules() },
                )
            } else {
                old(self)@
            },
    {
        if self.chains.contains_key(&id.0) {
            return Err(InteropError::ChainAlreadyRegistered);
        }
        let record = ChainRecord {
            client: client.boxed(),
            redeemed: BTreeSet::new(),
            outbound_seq: 0,
        };
        let ghost view = record@;
        self.chains.insert(id.0, record);
        proof {
            assert(view.client =~= light_client::ClientView {
                chain: client.chain(),
                rules: client.rules(),
            });
            assert(self@.chains =~= old(self)@.chains.insert(id.0, view));
        }
        Ok(())
    }

    /// Forward a foreign header to its light client for verification.
    pub fn submit_foreign_header(
        &mut self,
        id: ForeignChainId,
        header: &ForeignHeader,
        proof: &ConsensusProof,
    ) -> (res: Result<(), InteropError>)
        requires
            old(self)@.chains.contains_key(id.0) ==> old(self)@.chains[id.0].client.chain.tip_height
                < u64::MAX,
        ensures
            res == old(self)@.header_verdict(id, *header, proof@),
            res is Ok ==> old(self)@.chains[id.0].client.chain.link(*header) is Ok,
            final(self)@ == if res is Ok {
                old(self)@.adopted(id, *header)
            } else {
                old(self)@
            },
    {
        match self.chains.remove(&id.0) {
            None => {
                assert(self@.chains =~= old(self)@.chains);
                Err(InteropError::UnknownChain)
            },
            Some(mut record) => {
                assert(record@ == old(self)@.chains[id.0]);
                let res = record.client.submit_header(header, proof);
                let ghost view = record@;
                self.chains.insert(id.0, record);
                assert(self@.chains =~= old(self)@.chains.insert(id.0, view));
                assert(self@ =~= if res is Ok {
                    old(self)@.adopted(id, *header)
                } else {
                    old(self)@
                });
                res
            },
        }
    }

    /// Trusted tip height of a registered foreign chain.
    pub fn tip_height(&self, id: ForeignChainId) -> (res: Result<u64, InteropError>)
        ensures
            res == if self@.chains.contains_key(id.0) {
                Ok::<u64, InteropError>(self@.chains[id.0].client.chain.tip_height)
            } else {
                Err(InteropError::UnknownChain)
            },
    {
        match self.chains.get(&id.0) {
            None => Err(InteropError::UnknownChain),
            Some(record) => Ok(record.client.tip_height()),
        }
    }

    /// Verify a foreign lock event and produce the signed transfer that
    /// releases the matching amount from the reserve to the beneficiary.
    ///
    /// `reserve_nonce` is the reserve account's current nonce (the caller
    /// applies the returned transaction). Verifying and recording the event
    /// here makes a second redemption of the same `sequence` fail, so a
    /// relayer cannot double-spend a single foreign lock.
    pub fn redeem(
        &mut self,
        event: &CrossChainEvent,
        proof: &EventProof,
        reserve_nonce: u64,
    ) -> (res: Result<Transaction, InteropError>)
        ensures
            match old(self)@.redemption(*event, proof@) {
                Ok(()) => res is Ok && res->Ok_0@ == old(self)@.release(*event, reserve_nonce),
                Err(e) => res == Err::<Transaction, InteropError>(e),
            },
            final(self)@ == if res is Ok {
                old(self)@.redeemed(*event)
            } else {
                old(self)@
            },
            res is Ok ==> old(self)@.release_verifies(*event, reserve_nonce),
    {
        let id: u64 = event.foreign_chain.0;
        match self.chains.get(&id) {
            None => {
                return Err(InteropError::UnknownChain);
            },
            Some(record) => {
                match record.client.verify_event(event.hash(), proof) {
                    Ok(()) => {},
                    Err(e) => {
                        return Err(e);
                    },
                }
                if record.redeemed.contains(&event.sequence) {
                    return Err(InteropError::AlreadyProcessed { sequence: event.sequence });
                }
            },
        }
        match self.chains.remove(&id) {
            None => {},
            Some(mut record) => {
                record.redeemed.insert(event.sequence);
                let ghost view = record@;
                self.chains.insert(id, record);
                assert(self@.chains =~= old(self)@.chains.insert(id, view));
            },
        }
        assert(self@ =~= old(self)@.redeemed(*event));
        let tx = Transaction::transfer(
            self.reserve_account,
            reserve_nonce,
            event.beneficiary,
            event.amount,
        ).with_chain_id(self.phi_chain_id).signed(&self.reserve_keypair);
        assert(tx@ =~= old(self)@.release(*event, reserve_nonce));
        proof {
            let payout = old(self)@.payout(*event, reserve_nonce);
            transaction::law_id_ignores_signatures(payout, tx@.signatures);
            assert(tx@.signatures[0] == crypto::signature_of(old(self)@.seed, payout.id()@));
        }
        Ok(tx)
    }

    /// Redeem a foreign lock: the same as [`BridgeHub::redeem`], for callers
    /// that submit the prepared transfer themselves.
    pub fn prepare_redemption(
        &mut self,
        event: &CrossChainEvent,
        proof: &EventProof,
        reserve_nonce: u64,
    ) -> (res: Result<Transaction, InteropError>)
        ensures
            match old(self)@.redemption(*event, proof@) {
                Ok(()) => res is Ok && res->Ok_0@ == old(self)@.release(*event, reserve_nonce),
                Err(e) => res == Err::<Transaction, InteropError>(e),
            },
            final(self)@ == if res is Ok {
                old(self)@.redeemed(*event)
            } else {
                old(self)@
            },
            res is Ok ==> old(self)@.release_verifies(*event, reserve_nonce),
    {
        self.redeem(event, proof, reserve_nonce)
    }

    /// Emit a release instruction for the foreign chain after the caller has
    /// moved `amount` figs into the reserve (a normal transfer the caller
    /// verifies committed). Sequencing is monotonic per chain.
    pub fn export(
        &mut self,
        foreign_chain: ForeignChainId,
        foreign_beneficiary: [u8; 32],
        amount: u64,
    ) -> (res: Result<ReleaseInstruction, InteropError>)
        requires
            old(self)@.chains.contains_key(foreign_chain.0) ==> old(
                self,
            )@.chains[foreign_chain.0].outbound_seq < u64::MAX,
        ensures
            res == if old(self)@.chains.contains_key(foreign_chain.0) {
                Ok::<ReleaseInstruction, InteropError>(
                    ReleaseInstruction {
                        foreign_chain,
                        outbound_sequence: old(self)@.chains[foreign_chain.0].outbound_seq,
                        foreign_beneficiary,
                        amount,
                    },
                )
            } else {
                Err(InteropError::UnknownChain)
            },
            final(self)@ == if res is Ok {
                old(self)@.exported(foreign_chain)
            } else {
                old(self)@
            },
    {
        match self.chains.remove(&foreign_chain.0) {
            None => {
                assert(self@.chains =~= old(self)@.chains);
                Err(InteropError::UnknownChain)
            },
            Some(mut record) => {
                let outbound_sequence: u64 = record.outbound_seq;
                record.outbound_seq = outbound_sequence + 1;
                let ghost view = record@;
                self.chains.insert(foreign_chain.0, record);
                assert(self@.chains =~= old(self)@.chains.insert(foreign_chain.0, view));
                assert(self@ =~= old(self)@.exported(foreign_chain));
                Ok(
                    ReleaseInstruction {
                        foreign_chain,
                        outbound_sequence,
                        foreign_beneficiary,
                        amount,
                    },
                )
            },
        }
    }
}

/// One successful operation of the bridge takes it from `a` to `b`.
pub open spec fn step(a: HubView, b: HubView) -> bool {
    ||| exists|id: ForeignChainId, client: light_client::ClientView|
        !a.chains.contains_key(id.0) && b == #[trigger] a.registered(id, client)
    ||| exists|id: ForeignChainId, header: ForeignHeader|
        a.chains.contains_key(id.0) && a.chains[id.0].client.chain.link(header) is Ok && b
            == #[trigger] a.adopted(id, header)
    ||| exists|event: CrossChainEvent, inclusion: light_client::EventProofView|
        (#[trigger] a.redemption(event, inclusion)) is Ok && b == a.redeemed(event)
    ||| exists|id: ForeignChainId|
        a.chains.contains_key(id.0) && a.chains[id.0].outbound_seq < u64::MAX && b
            == #[trigger] a.exported(id)
}

/// A history of the bridge: each state follows from the one before it.
pub open spec fn history(states: Seq<HubView>) -> bool {
    &&& states.len() > 0
    &&& forall|i: int| 0 < i < states.len() ==> step(states[i - 1], #[trigger] states[i])
}

/// Whether `b` remembers whatever `a` knew: the reserve, every registered
/// chain with its rules, every redeemed sequence, and how many release
/// instructions have been emitted.
pub open spec fn remembers(b: HubView, a: HubView) -> bool {
    &&& b.phi_chain_id == a.phi_chain_id
    &&& b.seed == a.seed
    &&& b.reserve == a.reserve
    &&& forall|id: u64| #[trigger]
        a.chains.contains_key(id) ==> {
            &&& b.chains.contains_key(id)
            &&& b.chains[id].client.rules == a.chains[id].client.rules
            &&& a.chains[id].redeemed.subset_of(b.chains[id].redeemed)
            &&& a.chains[id].outbound_seq <= b.chains[id].outbound_seq
            &&& a.chains[id].client.chain.tip_height <= b.chains[id].client.chain.tip_height
        }
}

/// The bridge never forgets, however many operations follow.
pub proof fn law_the_bridge_never_forgets(states: Seq<HubView>)
    requires
        history(states),
    ensures
        remembers(states.last(), states[0]),
    decreases states.len(),
{
    if states.len() > 1 {
        let before = states.drop_last();
        law_the_bridge_never_forgets(before);
        let n = states.len() - 1;
        assert(step(states[n - 1], states[n]));
        assert(remembers(states[n], states[n - 1]));
        assert(before.last() == states[n - 1]);
    }
}

/// A foreign lock is paid out at most once: after a redemption, no event with
/// the same chain and sequence can be redeemed again, whatever the bridge does
/// in between.
pub proof fn law_no_lock_is_redeemed_twice(
    states: Seq<HubView>,
    hub: HubView,
    event: CrossChainEvent,
    again: CrossChainEvent,
    inclusion: light_client::EventProofView,
)
    requires
        hub.chains.contains_key(event.foreign_chain.0),
        history(states),
        states[0] == hub.redeemed(event),
        again.foreign_chain == event.foreign_chain,
        again.sequence == event.sequence,
    ensures
        states.last().redemption(again, inclusion) is Err,
{
    law_the_bridge_never_forgets(states);
    let id = event.foreign_chain.0;
    assert(states[0].chains.contains_key(id));
    assert(states[0].chains[id].redeemed.contains(event.sequence));
}

/// Outbound sequences never repeat: whatever the bridge does after an export,
/// the next export to the same chain carries a greater sequence.
pub proof fn law_outbound_sequences_increase(
    states: Seq<HubView>,
    hub: HubView,
    id: ForeignChainId,
)
    requires
        hub.chains.contains_key(id.0),
        hub.chains[id.0].outbound_seq < u64::MAX,
        history(states),
        states[0] == hub.exported(id),
    ensures
        states.last().chains.contains_key(id.0),
        states.last().chains[id.0].outbound_seq > hub.chains[id.0].outbound_seq,
{
    law_the_bridge_never_forgets(states);
    assert(states[0].chains.contains_key(id.0));
}

/// A redeemed event is the one that a header trusted by the chain's light
/// client commits to at the place the proof claims, unless two of the hash
/// inputs of event root and proof collide.
pub proof fn law_redeemed_events_are_committed(
    hub: HubView,
    event: CrossChainEvent,
    inclusion: light_client::EventProofView,
    events: Seq<hash::Hash>,
)
    requires
        events.len() <= u64::MAX,
        hub.redemption(event, inclusion) is Ok,
        hub.chains[event.foreign_chain.0].client.chain.event_roots[inclusion.header_height]
            == merkle::root_of(events),
    ensures
        (inclusion.leaf_count == events.len() && event.digest()
            == events[inclusion.leaf_index as int]) || hash::collision_in(
            merkle::root_inputs(events).union(inclusion.hash_inputs(event.digest())),
        ),
{
    light_client::law_verified_events_are_committed(
        hub.chains[event.foreign_chain.0].client.chain,
        events,
        event.digest(),
        inclusion,
    );
}

/// The bridge moves figs and never makes them: whatever comes of applying a
/// release, the total supply stays as it was.
pub proof fn law_releases_conserve_supply(
    s: state::StateView,
    hub: HubView,
    event: CrossChainEvent,
    reserve_nonce: u64,
)
    requires
        s.well_keyed(),
    ensures
        s.apply(hub.release(event, reserve_nonce)).supply() == s.supply(),
{
    state_laws::law_supply_is_accounted_for(s, hub.release(event, reserve_nonce));
}

/// Operations on one foreign chain leave what the bridge holds for every other
/// chain as it was.
pub proof fn law_chains_are_independent(
    hub: HubView,
    id: ForeignChainId,
    other: u64,
    client: light_client::ClientView,
    header: ForeignHeader,
    event: CrossChainEvent,
)
    requires
        id.0 != other,
        event.foreign_chain == id,
        hub.chains.contains_key(other),
    ensures
        hub.registered(id, client).chains[other] == hub.chains[other],
        hub.adopted(id, header).chains[other] == hub.chains[other],
        hub.redeemed(event).chains[other] == hub.chains[other],
        hub.exported(id).chains[other] == hub.chains[other],
{
}

/// The transaction that a redemption returns is a transfer of exactly the locked
/// amount from the reserve to the beneficiary of the lock, on this network, with
/// the reserve's signature and no one else's.
pub proof fn law_releases_pay_what_was_locked(
    hub: HubView,
    event: CrossChainEvent,
    reserve_nonce: u64,
)
    ensures
        ({
            let tx = hub.release(event, reserve_nonce);
            &&& tx.kind matches transaction::TransactionKind::Transfer { to, amount } && to
                == event.beneficiary && amount == event.amount
            &&& tx.sender == hub.reserve
            &&& tx.nonce == reserve_nonce
            &&& tx.chain_id == hub.phi_chain_id
            &&& tx.sponsor is None
            &&& tx.auth_reveal is None
            &&& tx.signatures.len() == 1
            &&& tx.signatures[0] == crypto::signature_of(hub.seed, tx.id()@)
        }),
{
    let payout = hub.payout(event, reserve_nonce);
    transaction::law_id_ignores_signatures(
        payout,
        hub.release(event, reserve_nonce).signatures,
    );
}

/// Once the ledger has applied a release, the beneficiary holds the locked amount
/// more, the reserve holds it less, and no one else's balance has changed.
pub proof fn law_releases_move_what_was_locked(
    s: state::StateView,
    hub: HubView,
    event: CrossChainEvent,
    reserve_nonce: u64,
    id: AccountId,
)
    requires
        s.verdict(hub.release(event, reserve_nonce)) is Ok,
        reserve_nonce < u64::MAX,
        event.beneficiary != hub.reserve,
    ensures
        ({
            let after = s.apply(hub.release(event, reserve_nonce));
            &&& after.balance(event.beneficiary) == s.balance(event.beneficiary) + event.amount
            &&& after.balance(hub.reserve) == s.balance(hub.reserve) - event.amount
            &&& id != event.beneficiary && id != hub.reserve ==> after.balance(id) == s.balance(id)
        }),
{
    let tx = hub.release(event, reserve_nonce);
    ledger_laws::law_valid_transactions_are_in_order(s, tx);
    assert(s.base_fee == 0);
    ledger_laws::law_valid_transactions_move_exactly(s, tx, event.beneficiary);
    ledger_laws::law_valid_transactions_move_exactly(s, tx, hub.reserve);
    ledger_laws::law_valid_transactions_move_exactly(s, tx, id);
}

/// A reserve that holds the locked amount pays it out: the ledger accepts the
/// release if the reserve's account is at that nonce and under the reserve's key,
/// fees are off, and the signature verifies.
pub proof fn law_funded_reserves_can_pay(
    s: state::StateView,
    hub: HubView,
    event: CrossChainEvent,
    reserve_nonce: u64,
)
    requires
        s.chain_id == hub.phi_chain_id,
        s.base_fee == 0,
        s.accounts.contains_key(hub.reserve),
        s.accounts[hub.reserve].nonce == reserve_nonce,
        s.accounts[hub.reserve].auth == account::PolicyView::SingleKey(
            crypto::public_key_of(hub.seed),
        ),
        event.amount <= s.accounts[hub.reserve].balance,
        s.balance(event.beneficiary) + event.amount <= u64::MAX,
        crypto::verifies(
            crypto::public_key_of(hub.seed),
            hub.release(event, reserve_nonce).id()@,
            hub.release(event, reserve_nonce).signatures[0],
        ),
    ensures
        s.verdict(hub.release(event, reserve_nonce)) is Ok,
{
    let tx = hub.release(event, reserve_nonce);
    assert(tx.access.writes[0] == hub.reserve);
    assert(tx.access.writes[1] == event.beneficiary);
}

/// A lock is redeemed exactly if its chain is registered, its hash is proven
/// under a header that is trusted, and its number has not been redeemed before.
pub proof fn law_redemption_needs_a_fresh_proven_lock(
    hub: HubView,
    event: CrossChainEvent,
    inclusion: light_client::EventProofView,
)
    ensures
        ({
            let known = hub.chains.contains_key(event.foreign_chain.0);
            let record = hub.chains[event.foreign_chain.0];
            let roots = record.client.chain.event_roots;
            let proven = roots.contains_key(inclusion.header_height) && merkle::proves(
                roots[inclusion.header_height],
                event.digest(),
                inclusion.leaf_index as int,
                inclusion.leaf_count as nat,
                inclusion.siblings,
            );
            let used = record.redeemed.contains(event.sequence);
            match hub.redemption(event, inclusion) {
                Ok(_) => known && proven && !used,
                Err(InteropError::UnknownChain) => !known,
                Err(InteropError::UnknownHeader { height }) => known && height
                    == inclusion.header_height && !roots.contains_key(height),
                Err(InteropError::EventNotIncluded) => known && roots.contains_key(
                    inclusion.header_height,
                ) && !proven,
                Err(InteropError::AlreadyProcessed { sequence }) => known && proven && used
                    && sequence == event.sequence,
                Err(_) => false,
            }
        }),
{
}

/// What the bridge writes down: a registered chain starts with nothing redeemed
/// and its first release to come; an adopted header extends the chain's headers;
/// a redemption marks its number; an export counts one up. Everything else stays.
pub proof fn law_the_books_are_kept(
    hub: HubView,
    id: ForeignChainId,
    client: light_client::ClientView,
    header: ForeignHeader,
    event: CrossChainEvent,
)
    requires
        event.foreign_chain == id,
    ensures
        ({
            let before = hub.chains[id.0];
            let new = hub.registered(id, client).chains[id.0];
            let adopted = hub.adopted(id, header).chains[id.0];
            let redeemed = hub.redeemed(event).chains[id.0];
            let exported = hub.exported(id).chains[id.0];
            &&& hub.registered(id, client).chains.contains_key(id.0)
            &&& new.client == client && new.outbound_seq == 0
            &&& forall|n: u64| !#[trigger] new.redeemed.contains(n)
            &&& adopted.client.chain == before.client.chain.append(header)
            &&& adopted.client.rules == before.client.rules
            &&& adopted.redeemed == before.redeemed && adopted.outbound_seq == before.outbound_seq
            &&& forall|n: u64| #[trigger]
                redeemed.redeemed.contains(n) <==> before.redeemed.contains(n) || n
                    == event.sequence
            &&& redeemed.client == before.client && redeemed.outbound_seq == before.outbound_seq
            &&& before.outbound_seq < u64::MAX ==> exported.outbound_seq == before.outbound_seq + 1
            &&& exported.client == before.client && exported.redeemed == before.redeemed
            &&& hub.redeemed(event).reserve == hub.reserve && hub.redeemed(event).seed == hub.seed
                && hub.redeemed(event).phi_chain_id == hub.phi_chain_id
        }),
{
}

/// A header goes to the client of its chain and is judged by that client's rules.
pub proof fn law_headers_go_to_their_client(
    hub: HubView,
    id: ForeignChainId,
    header: ForeignHeader,
    evidence: light_client::ProofView,
)
    ensures
        !hub.chains.contains_key(id.0) ==> hub.header_verdict(id, header, evidence) == Err::<
            (),
            InteropError,
        >(InteropError::UnknownChain),
        hub.chains.contains_key(id.0) ==> hub.header_verdict(id, header, evidence) == (
        hub.chains[id.0].client.rules)(hub.chains[id.0].client.chain, header, evidence),
{
}

/// The reserve is the account that the reserve key claims: revealing that key,
/// with a salt of zero, names it.
pub proof fn law_the_reserve_belongs_to_its_key(seed: Seq<u8>)
    ensures
        (transaction::RevealView {
            policy: account::PolicyView::SingleKey(crypto::public_key_of(seed)),
            salt: 0,
        }).id() == reserve_of(seed),
{
}

} // verus!
