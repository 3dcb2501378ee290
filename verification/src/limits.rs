//! Protocol limits enforced as consensus rules (see
//! [`crate::state::State::check_limits`]). They bound the work a single
//! transaction can force a validator to do.

use vstd::prelude::*;

use crate::engine;
use crate::mempool;
use crate::vm::machine;

verus! {

/// Max combined entries (reads + writes) in a transaction's access set.
pub const MAX_ACCESS_ENTRIES: usize = 64;

/// Max signatures a transaction may carry (bounds threshold-auth work).
pub const MAX_SIGNATURES: usize = 16;

/// Max keys in a revealed threshold auth policy.
pub const MAX_THRESHOLD_KEYS: usize = 16;

/// The limits: sixty-four entries, sixteen signatures, sixteen keys, ten
/// thousand transactions to a block, a hundred thousand in a pool, and a stack
/// of a thousand and twenty-four numbers.
pub proof fn law_limits()
    ensures
        MAX_ACCESS_ENTRIES == 64,
        MAX_SIGNATURES == 16,
        MAX_THRESHOLD_KEYS == 16,
        engine::MAX_BLOCK_TXS == 10_000,
        mempool::DEFAULT_MAX_PENDING == 100_000,
        machine::MAX_STACK == 1024,
{
}

} // verus!
