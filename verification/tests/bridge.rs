//! What light clients and the bridge promise, on concrete chains.

use phi::account::{AccountId, AuthPolicy};
use phi::crypto::{Keypair, PublicKey, Signature};
use phi::interop::pow::meets_target;
use phi::interop::{
    BftLightClient, BridgeHub, ConsensusProof, CrossChainEvent, EventProof, ForeignChainId,
    ForeignHeader, InteropError, LightClient, PowLightClient, SignerVote,
};
use phi::merkle;
use phi::merkle::MerkleProof;
use phi::state::State;

const CHAIN: ForeignChainId = ForeignChainId(3);

fn any_work() -> [u8; 32] {
    [0xff; 32]
}

fn start() -> ForeignHeader {
    ForeignHeader {
        height: 10,
        parent: phi::hash::Hash::zero(),
        event_root: merkle::root(&[]),
        nonce: 0,
    }
}

fn lock(sequence: u64, amount: u64) -> CrossChainEvent {
    CrossChainEvent {
        foreign_chain: CHAIN,
        sequence,
        beneficiary: AccountId::from_label("alice"),
        amount,
    }
}

fn after(parent: &ForeignHeader, events: &[CrossChainEvent]) -> ForeignHeader {
    let leaves: Vec<phi::hash::Hash> = events.iter().map(CrossChainEvent::hash).collect();
    ForeignHeader {
        height: parent.height + 1,
        parent: parent.hash(),
        event_root: merkle::root(&leaves),
        nonce: 0,
    }
}

fn proof_of(header: &ForeignHeader, events: &[CrossChainEvent], index: usize) -> EventProof {
    let leaves: Vec<phi::hash::Hash> = events.iter().map(CrossChainEvent::hash).collect();
    EventProof {
        header_height: header.height,
        leaf_index: index,
        leaf_count: events.len(),
        merkle: merkle::prove(&leaves, index).unwrap(),
    }
}

fn validators() -> Vec<Keypair> {
    (0..4).map(|i| Keypair::from_label(&format!("foreign-{i}"))).collect()
}

fn bft_client() -> BftLightClient {
    let keys: Vec<PublicKey> = validators().iter().map(|k| k.public()).collect();
    BftLightClient::new(&start(), keys, 3)
}

fn signed_by(header: &ForeignHeader, signers: &[usize]) -> ConsensusProof {
    let all = validators();
    ConsensusProof::Bft {
        votes: signers
            .iter()
            .map(|i| SignerVote {
                signer: *i as u32,
                signature: all[*i].sign(header.hash().as_bytes()),
            })
            .collect(),
    }
}

#[test]
fn targets_compare_as_big_endian_numbers() {
    let mut low = [0u8; 32];
    low[31] = 5;
    let mut high = [0u8; 32];
    high[0] = 1;
    assert!(meets_target(&phi::hash::Hash(low), &high));
    assert!(!meets_target(&phi::hash::Hash(high), &low));
    assert!(meets_target(&phi::hash::Hash(low), &low));
}

#[test]
fn mined_headers_are_accepted_and_carry_work() {
    let mut target = [0xffu8; 32];
    target[0] = 0x07;
    let mut client = PowLightClient::new(&start(), target);
    let mined = client.try_mine(after(&start(), &[])).unwrap();
    assert!(meets_target(&mined.hash(), &target));
    assert_eq!(client.submit_header(&mined, &ConsensusProof::Pow), Ok(()));
    assert_eq!(client.tip_height(), 11);
    // The work of the tip is no work for another header.
    let mut other = after(&mined, &[]);
    while meets_target(&other.hash(), &target) {
        other.nonce += 1;
    }
    assert_eq!(
        client.submit_header(&other, &ConsensusProof::Pow),
        Err(InteropError::InsufficientWork)
    );
    assert_eq!(client.tip_height(), 11);
}

#[test]
fn headers_must_extend_the_tip() {
    let mut client = PowLightClient::new(&start(), any_work());
    let mut gap = after(&start(), &[]);
    gap.height = 12;
    assert_eq!(
        client.submit_header(&gap, &ConsensusProof::Pow),
        Err(InteropError::NonContiguousHeight { expected: 11, got: 12 })
    );
    let mut orphan = after(&start(), &[]);
    orphan.parent = phi::hash::Hash::of(b"elsewhere");
    assert_eq!(
        client.submit_header(&orphan, &ConsensusProof::Pow),
        Err(InteropError::BrokenLink {
            expected_parent: start().hash(),
            got: phi::hash::Hash::of(b"elsewhere"),
        })
    );
    assert_eq!(
        client.submit_header(&after(&start(), &[]), &signed_by(&start(), &[0])),
        Err(InteropError::WrongConsensusProof)
    );
    assert_eq!(client.tip_height(), 10);
}

#[test]
fn a_quorum_is_needed_and_enough() {
    let header = after(&start(), &[]);
    let mut client = bft_client();
    assert_eq!(
        client.submit_header(&header, &signed_by(&header, &[0, 1])),
        Err(InteropError::QuorumNotMet { have: 2, need: 3 })
    );
    assert_eq!(
        client.submit_header(&header, &signed_by(&header, &[1, 1, 0, 0])),
        Err(InteropError::QuorumNotMet { have: 2, need: 3 })
    );
    assert_eq!(
        client.submit_header(&header, &ConsensusProof::Pow),
        Err(InteropError::WrongConsensusProof)
    );
    // A signer out of range, and a signature over another header.
    let stranger = ConsensusProof::Bft {
        votes: vec![SignerVote { signer: 4, signature: Signature([0; 64]) }],
    };
    assert_eq!(client.submit_header(&header, &stranger), Err(InteropError::BadSignature));
    assert_eq!(
        client.submit_header(&header, &signed_by(&start(), &[0, 1, 2])),
        Err(InteropError::BadSignature)
    );
    assert_eq!(client.submit_header(&header, &signed_by(&header, &[3, 0, 2])), Ok(()));
    assert_eq!(client.tip_height(), 11);
}

#[test]
fn committed_events_verify_at_their_height_only() {
    let events = [lock(0, 5), lock(1, 6), lock(2, 7)];
    let header = after(&start(), &events);
    let mut client = PowLightClient::new(&start(), any_work());
    let proof = proof_of(&header, &events, 1);
    assert_eq!(
        client.verify_event(events[1].hash(), &proof),
        Err(InteropError::UnknownHeader { height: 11 })
    );
    client.submit_header(&header, &ConsensusProof::Pow).unwrap();
    assert_eq!(client.verify_event(events[1].hash(), &proof), Ok(()));
    assert_eq!(
        client.verify_event(events[0].hash(), &proof),
        Err(InteropError::EventNotIncluded)
    );
    // The proof of the last event does not pass for one of fewer events.
    let mut shrunk = proof_of(&header, &events, 2);
    shrunk.leaf_index = 1;
    shrunk.leaf_count = 2;
    assert_eq!(
        client.verify_event(events[2].hash(), &shrunk),
        Err(InteropError::EventNotIncluded)
    );
    let mut moved = proof;
    moved.header_height = 10;
    assert_eq!(
        client.verify_event(events[1].hash(), &moved),
        Err(InteropError::EventNotIncluded)
    );
    // History stays: a later header takes nothing away.
    client.submit_header(&after(&header, &[]), &ConsensusProof::Pow).unwrap();
    assert_eq!(
        client.verify_event(events[1].hash(), &proof_of(&header, &events, 1)),
        Ok(())
    );
}

#[test]
fn header_and_event_hashes_cover_every_field() {
    let header = start();
    let mut headers = vec![header; 4];
    headers[0].height = 11;
    headers[1].parent = phi::hash::Hash::of(b"p");
    headers[2].event_root = phi::hash::Hash::of(b"e");
    headers[3].nonce = 1;
    for h in headers {
        assert_ne!(h.hash(), header.hash());
    }
    let event = lock(0, 5);
    let mut events = vec![event; 4];
    events[0].foreign_chain = ForeignChainId(4);
    events[1].sequence = 1;
    events[2].beneficiary = AccountId::from_label("bob");
    events[3].amount = 6;
    for e in events {
        assert_ne!(e.hash(), event.hash());
    }
}

#[test]
fn a_redemption_moves_reserve_funds_and_mints_nothing() {
    let mut hub = BridgeHub::new(6, Keypair::from_label("reserve"));
    let mut ledger = State::new();
    ledger.set_chain_id(6);
    ledger.genesis_account_with_auth(
        hub.reserve_account(),
        1_000,
        AuthPolicy::SingleKey(Keypair::from_label("reserve").public()),
    );
    let events = [lock(0, 250), lock(1, 30)];
    let header = after(&start(), &events);
    hub.register_chain(CHAIN, PowLightClient::new(&start(), any_work())).unwrap();
    hub.submit_foreign_header(CHAIN, &header, &ConsensusProof::Pow).unwrap();
    for (nonce, event) in events.iter().enumerate() {
        let proof = proof_of(&header, &events, nonce);
        let tx = hub.prepare_redemption(event, &proof, nonce as u64).unwrap();
        assert_eq!(ledger.apply_tx(&tx).result, Ok(()));
        assert_eq!(
            hub.redeem(event, &proof, 9),
            Err(InteropError::AlreadyProcessed { sequence: event.sequence })
        );
    }
    assert_eq!(ledger.balance(&AccountId::from_label("alice")), 280);
    assert_eq!(ledger.balance(&hub.reserve_account()), 720);
    assert_eq!(ledger.total_supply(), 1_000);
}

#[test]
fn chains_do_not_disturb_each_other() {
    let other = ForeignChainId(4);
    let mut hub = BridgeHub::new(1, Keypair::from_label("reserve"));
    hub.register_chain(CHAIN, PowLightClient::new(&start(), any_work())).unwrap();
    hub.register_chain(other, bft_client()).unwrap();
    assert_eq!(
        hub.register_chain(CHAIN, bft_client()),
        Err(InteropError::ChainAlreadyRegistered)
    );

    let header = after(&start(), &[lock(0, 1)]);
    hub.submit_foreign_header(CHAIN, &header, &ConsensusProof::Pow).unwrap();
    assert_eq!((hub.tip_height(CHAIN), hub.tip_height(other)), (Ok(11), Ok(10)));

    // The event names its chain: the other chain's client never sees it.
    let mut foreign = lock(0, 1);
    foreign.foreign_chain = other;
    let proof = proof_of(&header, &[lock(0, 1)], 0);
    assert_eq!(
        hub.redeem(&foreign, &proof, 0),
        Err(InteropError::UnknownHeader { height: 11 })
    );
    let next = after(&start(), &[]);
    hub.submit_foreign_header(other, &next, &signed_by(&next, &[0, 1, 2])).unwrap();
    assert_eq!(hub.redeem(&foreign, &proof, 0), Err(InteropError::EventNotIncluded));
    // A refused redemption is not remembered.
    assert!(hub.redeem(&lock(0, 1), &proof, 0).is_ok());

    for expected in 0..3 {
        let out = hub.export(CHAIN, [7; 32], 5).unwrap();
        assert_eq!(out.outbound_sequence, expected);
        assert_eq!((out.foreign_chain, out.amount), (CHAIN, 5));
    }
    assert_eq!(hub.export(other, [7; 32], 5).unwrap().outbound_sequence, 0);
}

#[test]
fn unknown_chains_are_refused_everywhere() {
    let mut hub = BridgeHub::new(1, Keypair::from_label("reserve"));
    let nothing = EventProof {
        header_height: 0,
        leaf_index: 0,
        leaf_count: 1,
        merkle: MerkleProof { siblings: vec![] },
    };
    assert_eq!(hub.tip_height(CHAIN), Err(InteropError::UnknownChain));
    assert_eq!(
        hub.submit_foreign_header(CHAIN, &start(), &ConsensusProof::Pow),
        Err(InteropError::UnknownChain)
    );
    assert_eq!(hub.redeem(&lock(0, 1), &nothing, 0), Err(InteropError::UnknownChain));
    assert_eq!(hub.export(CHAIN, [0; 32], 1), Err(InteropError::UnknownChain));
}
