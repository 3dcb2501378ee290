//! Selectors of the example token contract (passed as `args[0]`).

use vstd::prelude::*;

verus! {

/// `balanceOf(account=args[1]) -> balance`
pub const BALANCE_OF: u64 = 0;

/// `transfer(to=args[1], amount=args[2]) -> 1`, debiting the caller.
pub const TRANSFER: u64 = 1;

} // verus!
