//! Trust-minimized cross-chain verification.
//!
//! The node runs a *light client* of each foreign chain and verifies that
//! chain's own consensus, so a cross-chain transfer is accepted only against a
//! cryptographic proof that a relayer cannot forge: there is no privileged
//! signer set that can simply assert that something happened.
//!
//! - [`LightClient`] and two adapters of different families:
//!   [`PowLightClient`] (proof-of-work header verification) and
//!   [`BftLightClient`] (validator-set quorum signatures).
//! - [`BridgeHub`], which verifies foreign lock events against the right light
//!   client and releases figs from a pre-funded reserve, so total supply is
//!   conserved, with replay protection in both directions.
//!
//! Supporting a new chain means implementing [`LightClient`] for its consensus
//! rules. Out of scope: proof aggregation, validator-set rotation, proof-of-work
//! retargeting and most-work fork choice, and the foreign-side contracts that
//! honor a [`ReleaseInstruction`].

pub mod bft;
pub mod bridge;
pub mod light_client;
pub mod pow;

pub use bft::BftLightClient;
pub use bridge::{BridgeHub, ReleaseInstruction};
pub use pow::PowLightClient;
pub use light_client::{
    ClientBox, ConsensusProof, CrossChainEvent, EventProof, ForeignChainId, ForeignHeader,
    InteropError, IntoClientBox, LightClient, SignerVote,
};
