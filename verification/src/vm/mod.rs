//! PhiVM: a deterministic, gas-metered virtual machine for smart contracts.
//!
//! A small stack machine with
//!
//! - determinism by construction: integer-only operands, ordered storage and
//!   no host nondeterminism;
//! - gas metering: every instruction has a fixed cost and execution is bounded
//!   by a gas limit, so that a contract always terminates;
//! - atomic calls: a trap reverts all storage writes.
//!
//! Contracts run by [`contract::Contract::call`]; they do not change on-chain
//! state.

pub mod assembler;
pub mod contract;
pub mod examples;
pub mod instr;
pub mod laws;
pub mod machine;
pub mod token;
