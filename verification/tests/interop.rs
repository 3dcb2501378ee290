//! Light clients and the bridge.

use phi::account::AccountId;
use phi::crypto::{Keypair, PublicKey};
use phi::interop::pow::meets_target;
use phi::interop::{
    BftLightClient, BridgeHub, ConsensusProof, CrossChainEvent, EventProof, ForeignChainId,
    ForeignHeader, InteropError, LightClient, PowLightClient, SignerVote,
};
use phi::merkle;
use phi::transaction::TransactionKind;

fn easy_target() -> [u8; 32] {
    let mut t = [0xffu8; 32];
    t[0] = 0x00;
    t
}

fn foreign_genesis() -> ForeignHeader {
    ForeignHeader {
        height: 0,
        parent: phi::hash::Hash::zero(),
        event_root: merkle::root(&[]),
        nonce: 0,
    }
}

/// Build a foreign block committing `events`, plus inclusion proofs.
fn block_with_events(
    parent: &ForeignHeader,
    events: &[CrossChainEvent],
) -> (ForeignHeader, Vec<EventProof>) {
    let leaves: Vec<phi::hash::Hash> = events.iter().map(CrossChainEvent::hash).collect();
    let header = ForeignHeader {
        height: parent.height + 1,
        parent: parent.hash(),
        event_root: merkle::root(&leaves),
        nonce: 0,
    };
    let proofs = (0..events.len())
        .map(|i| EventProof {
            header_height: header.height,
            leaf_index: i,
            leaf_count: events.len(),
            merkle: merkle::prove(&leaves, i).unwrap(),
        })
        .collect();
    (header, proofs)
}

#[test]
fn pow_inbound_lock_releases_from_reserve_once() {
    let reserve_kp = Keypair::from_label("phi-bridge-reserve");
    let mut hub = BridgeHub::new(1, reserve_kp);
    let chain = ForeignChainId(100);
    let pow = PowLightClient::new(&foreign_genesis(), easy_target());

    let event = CrossChainEvent {
        foreign_chain: chain,
        sequence: 0,
        beneficiary: AccountId::from_label("alice"),
        amount: 250,
    };
    let (header, proofs) = block_with_events(&foreign_genesis(), std::slice::from_ref(&event));
    let mined = pow.mine(header);
    // Recompute the proof against the mined header height (still height 1).
    hub.register_chain(chain, pow).unwrap();
    hub.submit_foreign_header(chain, &mined, &ConsensusProof::Pow)
        .unwrap();

    let tx = hub.redeem(&event, &proofs[0], 0).unwrap();
    // The release is a signed reserve→beneficiary transfer on Phi.
    assert_eq!(tx.sender, hub.reserve_account());
    assert_eq!(tx.chain_id, 1);
    assert!(!tx.signatures.is_empty());
    match tx.kind {
        TransactionKind::Transfer { to, amount } => {
            assert_eq!(to, AccountId::from_label("alice"));
            assert_eq!(amount, 250);
        }
        _ => panic!("expected transfer"),
    }

    // Replaying the same foreign lock fails.
    assert_eq!(
        hub.redeem(&event, &proofs[0], 1),
        Err(InteropError::AlreadyProcessed { sequence: 0 })
    );
}

#[test]
fn bft_inbound_lock_verified_against_foreign_validators() {
    let reserve_kp = Keypair::from_label("phi-bridge-reserve");
    let mut hub = BridgeHub::new(9, reserve_kp);
    let chain = ForeignChainId(200);

    let foreign_vs: Vec<Keypair> = (0..4)
        .map(|i| Keypair::from_label(&format!("cosmos-val-{i}")))
        .collect();
    let keys: Vec<PublicKey> = foreign_vs.iter().map(|k| k.public()).collect();
    let bft = BftLightClient::new(&foreign_genesis(), keys, 3);
    hub.register_chain(chain, bft).unwrap();

    let event = CrossChainEvent {
        foreign_chain: chain,
        sequence: 0,
        beneficiary: AccountId::from_label("bob"),
        amount: 77,
    };
    let (header, proofs) = block_with_events(&foreign_genesis(), std::slice::from_ref(&event));
    let msg = header.hash();
    let votes = (0..3)
        .map(|i| SignerVote {
            signer: i,
            signature: foreign_vs[i as usize].sign(msg.as_bytes()),
        })
        .collect();
    hub.submit_foreign_header(chain, &header, &ConsensusProof::Bft { votes })
        .unwrap();

    let tx = hub.redeem(&event, &proofs[0], 0).unwrap();
    match tx.kind {
        TransactionKind::Transfer { amount, .. } => assert_eq!(amount, 77),
        _ => panic!("expected transfer"),
    }
}

#[test]
fn redeeming_an_unincluded_event_fails() {
    let reserve_kp = Keypair::from_label("phi-bridge-reserve");
    let mut hub = BridgeHub::new(1, reserve_kp);
    let chain = ForeignChainId(100);
    let pow = PowLightClient::new(&foreign_genesis(), easy_target());
    hub.register_chain(chain, pow).unwrap();

    // A header committing event A...
    let included = CrossChainEvent {
        foreign_chain: chain,
        sequence: 0,
        beneficiary: AccountId::from_label("alice"),
        amount: 10,
    };
    let (header, proofs) =
        block_with_events(&foreign_genesis(), std::slice::from_ref(&included));
    // Re-mine via a throwaway client to get a valid header.
    let miner = PowLightClient::new(&foreign_genesis(), easy_target());
    let mined = miner.mine(header);
    hub.submit_foreign_header(chain, &mined, &ConsensusProof::Pow)
        .unwrap();

    // ...cannot be used to redeem a different (forged) event with the
    // included event's proof.
    let forged = CrossChainEvent {
        foreign_chain: chain,
        sequence: 0,
        beneficiary: AccountId::from_label("attacker"),
        amount: 1_000_000,
    };
    assert_eq!(
        hub.redeem(&forged, &proofs[0], 0),
        Err(InteropError::EventNotIncluded)
    );
}

#[test]
fn unknown_chain_rejected() {
    let mut hub = BridgeHub::new(1, Keypair::from_label("r"));
    let event = CrossChainEvent {
        foreign_chain: ForeignChainId(404),
        sequence: 0,
        beneficiary: AccountId::from_label("x"),
        amount: 1,
    };
    let proof = EventProof {
        header_height: 1,
        leaf_index: 0,
        leaf_count: 1,
        merkle: merkle::MerkleProof { siblings: vec![] },
    };
    assert_eq!(
        hub.redeem(&event, &proof, 0),
        Err(InteropError::UnknownChain)
    );
    assert_eq!(
        hub.export(ForeignChainId(404), [0u8; 32], 1),
        Err(InteropError::UnknownChain)
    );
}

#[test]
fn outbound_export_sequences_monotonically() {
    let mut hub = BridgeHub::new(1, Keypair::from_label("r"));
    let chain = ForeignChainId(100);
    hub.register_chain(
        chain,
        PowLightClient::new(&foreign_genesis(), easy_target()),
    )
    .unwrap();
    let a = hub.export(chain, [1u8; 32], 5).unwrap();
    let b = hub.export(chain, [2u8; 32], 6).unwrap();
    assert_eq!(a.outbound_sequence, 0);
    assert_eq!(b.outbound_sequence, 1);
}

#[test]
fn duplicate_registration_rejected() {
    let mut hub = BridgeHub::new(1, Keypair::from_label("r"));
    let chain = ForeignChainId(100);
    hub.register_chain(
        chain,
        PowLightClient::new(&foreign_genesis(), easy_target()),
    )
    .unwrap();
    assert_eq!(
        hub.register_chain(
            chain,
            PowLightClient::new(&foreign_genesis(), easy_target())
        ),
        Err(InteropError::ChainAlreadyRegistered)
    );
}

fn validators(n: usize) -> Vec<Keypair> {
    (0..n)
        .map(|i| Keypair::from_label(&format!("foreign-validator-{i}")))
        .collect()
}


fn header_at(parent: &ForeignHeader, event_root: phi::hash::Hash) -> ForeignHeader {
    ForeignHeader {
        height: parent.height + 1,
        parent: parent.hash(),
        event_root,
        nonce: 0,
    }
}

fn sign_all(header: &ForeignHeader, signers: &[(u32, &Keypair)]) -> ConsensusProof {
    let msg = header.hash();
    ConsensusProof::Bft {
        votes: signers
            .iter()
            .map(|(i, kp)| SignerVote {
                signer: *i,
                signature: kp.sign(msg.as_bytes()),
            })
            .collect(),
    }
}

#[test]
fn accepts_quorum_signed_header() {
    let vs = validators(4);
    let keys: Vec<PublicKey> = vs.iter().map(|k| k.public()).collect();
    let mut client = BftLightClient::new(&foreign_genesis(), keys, 3);

    let h = header_at(&foreign_genesis(), merkle::root(&[phi::hash::Hash::of(b"e")]));
    let proof = sign_all(&h, &[(0, &vs[0]), (1, &vs[1]), (2, &vs[2])]);
    assert!(client.submit_header(&h, &proof).is_ok());
    assert_eq!(client.tip_height(), 1);
}

#[test]
fn rejects_below_quorum() {
    let vs = validators(4);
    let keys: Vec<PublicKey> = vs.iter().map(|k| k.public()).collect();
    let mut client = BftLightClient::new(&foreign_genesis(), keys, 3);
    let h = header_at(&foreign_genesis(), phi::hash::Hash::zero());
    let proof = sign_all(&h, &[(0, &vs[0]), (1, &vs[1])]);
    assert_eq!(
        client.submit_header(&h, &proof),
        Err(InteropError::QuorumNotMet { have: 2, need: 3 })
    );
}

#[test]
fn duplicate_signer_does_not_inflate_quorum() {
    let vs = validators(4);
    let keys: Vec<PublicKey> = vs.iter().map(|k| k.public()).collect();
    let mut client = BftLightClient::new(&foreign_genesis(), keys, 3);
    let h = header_at(&foreign_genesis(), phi::hash::Hash::zero());
    // Validator 0 signs three times.
    let proof = sign_all(&h, &[(0, &vs[0]), (0, &vs[0]), (0, &vs[0])]);
    assert_eq!(
        client.submit_header(&h, &proof),
        Err(InteropError::QuorumNotMet { have: 1, need: 3 })
    );
}

#[test]
fn rejects_forged_signature() {
    let vs = validators(4);
    let keys: Vec<PublicKey> = vs.iter().map(|k| k.public()).collect();
    let mut client = BftLightClient::new(&foreign_genesis(), keys, 3);
    let h = header_at(&foreign_genesis(), phi::hash::Hash::zero());
    let mallory = Keypair::from_label("mallory");
    // Mallory signs but claims to be validator 2.
    let proof = ConsensusProof::Bft {
        votes: vec![
            SignerVote {
                signer: 0,
                signature: vs[0].sign(h.hash().as_bytes()),
            },
            SignerVote {
                signer: 1,
                signature: vs[1].sign(h.hash().as_bytes()),
            },
            SignerVote {
                signer: 2,
                signature: mallory.sign(h.hash().as_bytes()),
            },
        ],
    };
    assert_eq!(
        client.submit_header(&h, &proof),
        Err(InteropError::BadSignature)
    );
}

#[test]
fn accepts_mined_headers_and_rejects_unmined() {
    let mut client = PowLightClient::new(&foreign_genesis(), easy_target());
    let next = ForeignHeader {
        height: 1,
        parent: foreign_genesis().hash(),
        event_root: merkle::root(&[phi::hash::Hash::of(b"e")]),
        nonce: 0,
    };
    // Unmined header almost certainly fails the target.
    if meets_target(&next.hash(), &easy_target()) {
        // Astronomically unlikely; skip if the zero-nonce happens to pass.
    } else {
        assert_eq!(
            client.submit_header(&next, &ConsensusProof::Pow),
            Err(InteropError::InsufficientWork)
        );
    }
    let mined = client.mine(next);
    assert!(client.submit_header(&mined, &ConsensusProof::Pow).is_ok());
    assert_eq!(client.tip_height(), 1);
}

#[test]
fn rejects_broken_links() {
    let mut client = PowLightClient::new(&foreign_genesis(), easy_target());
    let wrong_parent = client.mine(ForeignHeader {
        height: 1,
        parent: phi::hash::Hash::of(b"not-genesis"),
        event_root: phi::hash::Hash::zero(),
        nonce: 0,
    });
    assert!(matches!(
        client.submit_header(&wrong_parent, &ConsensusProof::Pow),
        Err(InteropError::BrokenLink { .. })
    ));
}

#[test]
fn wrong_proof_kind_rejected() {
    let mut client = PowLightClient::new(&foreign_genesis(), easy_target());
    let h = client.mine(ForeignHeader {
        height: 1,
        parent: foreign_genesis().hash(),
        event_root: phi::hash::Hash::zero(),
        nonce: 0,
    });
    assert_eq!(
        client.submit_header(&h, &ConsensusProof::Bft { votes: vec![] }),
        Err(InteropError::WrongConsensusProof)
    );
}

#[test]
fn verifies_event_inclusion_under_a_mined_header() {
    let mut client = PowLightClient::new(&foreign_genesis(), easy_target());
    let event = CrossChainEvent {
        foreign_chain: ForeignChainId(7),
        sequence: 0,
        beneficiary: AccountId::from_label("dest"),
        amount: 100,
    };
    let leaves = vec![phi::hash::Hash::of(b"other"), event.hash()];
    let header = client.mine(ForeignHeader {
        height: 1,
        parent: foreign_genesis().hash(),
        event_root: merkle::root(&leaves),
        nonce: 0,
    });
    client.submit_header(&header, &ConsensusProof::Pow).unwrap();

    let proof = EventProof {
        header_height: 1,
        leaf_index: 1,
        leaf_count: 2,
        merkle: merkle::prove(&leaves, 1).unwrap(),
    };
    assert!(client.verify_event(event.hash(), &proof).is_ok());
    // Tampered amount → different hash → not included.
    let mut forged = event.clone();
    forged.amount = 999;
    assert_eq!(
        client.verify_event(forged.hash(), &proof),
        Err(InteropError::EventNotIncluded)
    );
}

/// A relayer round trip across two foreign chains of different consensus
/// families into one Phi bridge, ending in Phi-applicable transfers.
#[test]
fn two_chain_families_bridge_into_phi() {
    let phi_chain_id = 1;
    let mut hub = BridgeHub::new(phi_chain_id, Keypair::from_label("reserve"));

    // Foreign chain A: proof of work (Bitcoin-style).
    let btc = ForeignChainId(0xB7C);
    let pow = PowLightClient::new(&foreign_genesis(), easy_target());
    // Foreign chain B: BFT validator set (Cosmos/Solana-style).
    let cosmos = ForeignChainId(0xC05);
    let vs: Vec<Keypair> = (0..4)
        .map(|i| Keypair::from_label(&format!("val-{i}")))
        .collect();
    let keys: Vec<PublicKey> = vs.iter().map(|k| k.public()).collect();
    let bft = BftLightClient::new(&foreign_genesis(), keys, 3);

    // Build each chain's block-1 committing one lock event.
    let btc_event = CrossChainEvent {
        foreign_chain: btc,
        sequence: 0,
        beneficiary: AccountId::from_label("alice"),
        amount: 500,
    };
    let cosmos_event = CrossChainEvent {
        foreign_chain: cosmos,
        sequence: 0,
        beneficiary: AccountId::from_label("bob"),
        amount: 300,
    };

    let btc_leaves = vec![btc_event.hash()];
    let btc_header = pow.mine(ForeignHeader {
        height: 1,
        parent: foreign_genesis().hash(),
        event_root: merkle::root(&btc_leaves),
        nonce: 0,
    });
    let cosmos_leaves = vec![cosmos_event.hash()];
    let cosmos_header = ForeignHeader {
        height: 1,
        parent: foreign_genesis().hash(),
        event_root: merkle::root(&cosmos_leaves),
        nonce: 0,
    };
    let cosmos_votes = (0..3)
        .map(|i| SignerVote {
            signer: i,
            signature: vs[i as usize].sign(cosmos_header.hash().as_bytes()),
        })
        .collect();

    hub.register_chain(btc, pow).unwrap();
    hub.register_chain(cosmos, bft).unwrap();
    hub.submit_foreign_header(btc, &btc_header, &ConsensusProof::Pow)
        .unwrap();
    hub.submit_foreign_header(
        cosmos,
        &cosmos_header,
        &ConsensusProof::Bft {
            votes: cosmos_votes,
        },
    )
    .unwrap();
    assert_eq!(hub.tip_height(btc).unwrap(), 1);
    assert_eq!(hub.tip_height(cosmos).unwrap(), 1);

    let btc_proof = EventProof {
        header_height: 1,
        leaf_index: 0,
        leaf_count: 1,
        merkle: merkle::prove(&btc_leaves, 0).unwrap(),
    };
    let cosmos_proof = EventProof {
        header_height: 1,
        leaf_index: 0,
        leaf_count: 1,
        merkle: merkle::prove(&cosmos_leaves, 0).unwrap(),
    };

    // Reserve account redeems both, with its own nonce advancing.
    let tx_a = hub.prepare_redemption(&btc_event, &btc_proof, 0).unwrap();
    let tx_b = hub
        .prepare_redemption(&cosmos_event, &cosmos_proof, 1)
        .unwrap();
    assert_eq!(tx_a.sender, hub.reserve_account());
    assert_eq!(tx_b.sender, hub.reserve_account());

    // Outbound: alice sends 120 figs back out to chain A.
    let release = hub.export(btc, [0x11; 32], 120).unwrap();
    assert_eq!(release.outbound_sequence, 0);
    assert_eq!(release.amount, 120);
}
