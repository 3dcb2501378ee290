# Phi

A verified base layer for a proof-of-stake ledger, written in
[Verus](https://github.com/verus-lang/verus): accounts with programmable
authorization, a deterministic state machine, conflict-scheduled execution,
a mempool with fee priority, BFT rounds with quorum certificates and slashing
evidence, sparse Merkle state proofs, a small gas-metered virtual machine,
light clients and a bridge for foreign chains, and a single-node chain with a
command line.

Everything under `src/` is proved against its contract. What is proved there:

- every function returns what its `ensures` says, for every input that its
  `requires` admits, and does not panic on it;
- the properties of the system as a whole, each a public proof function whose
  name starts with `law_`: supply is accounted for, failures leave no trace, no
  transaction is replayed, spending needs authority, parallel schedules equal
  serial execution, certificates need a supermajority, double votes are found,
  proofs verify and prove nothing else, snapshots restore, a bridge lock is
  redeemed once, and so on.

## Trust

Five declarations are believed rather than proved: the BLAKE3 digest
(`hash.rs`), the Ed25519 public key, signing and strict verification
(`crypto.rs`), and `String::push` (`text.rs`). BLAKE3 and Ed25519 are named, not
modelled. That digests do not collide is nowhere taken for granted: a law that
needs it names the hash inputs in question and holds unless two of them
collide.

## Layout

| Path | What is there |
| --- | --- |
| `src/bytes.rs`, `src/text.rs`, `src/sums.rs`, `src/bytemap.rs` | encodings, texts, sums, and an ordered map with 32-byte keys |
| `src/hash.rs`, `src/crypto.rs` | tagged hashes, keys and signatures |
| `src/merkle.rs`, `src/smt.rs` | Merkle tree and sparse Merkle tree, with proofs |
| `src/account.rs`, `src/transaction.rs`, `src/block.rs`, `src/receipt.rs`, `src/limits.rs` | the data of the ledger |
| `src/state.rs`, `src/state_laws.rs`, `src/snapshot.rs` | the state machine, what holds of it, its byte form |
| `src/executor.rs` | conflict waves, sandboxes, merging |
| `src/mempool.rs` | admission, batches, fee priority |
| `src/cargo.rs` | issuance governance, supply audit, throttling |
| `src/consensus.rs`, `src/engine.rs` | votes, certificates, evidence; rounds |
| `src/vm/` | instructions, assembler, machine, contracts, examples |
| `src/interop/` | light clients and the bridge |
| `src/node.rs`, `src/cli.rs` | the single-node chain and its commands |
| `src/nex/` | the unsigned starter chain |
| `tests/` | tests |
| `app/` | the program: files, clock, threads, printing |
