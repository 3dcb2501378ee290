//! NexChain: the unsigned starter chain.
//!
//! Accounts, transactions, blocks, the ledger state machine and a round-robin
//! consensus simulation, without signatures, fees or networking. Hashes and
//! Merkle trees are shared with the rest of the crate.

pub mod account;
pub mod block;
pub mod consensus;
pub mod state;
pub mod transaction;
