pub mod account;
pub mod block;
pub mod bytemap;
pub mod bytes;
pub mod cargo;
pub mod cli;
pub mod consensus;
pub mod crypto;
pub mod domain_laws;
pub mod engine;
pub mod executor;
pub mod hash;
pub mod interop;
pub mod ledger_laws;
pub mod limits;
pub mod mempool;
pub mod merkle;
pub mod nex;
pub mod node;
pub mod receipt;
pub mod smt;
pub mod snapshot;
pub mod state;
pub mod state_laws;
pub mod sums;
pub mod text;
pub mod transaction;
pub mod view_laws;
pub mod vm;
pub mod wire_laws;
