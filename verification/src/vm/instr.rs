//! The instruction set.
//!
//! Operands and storage are `u64`; there are no floats. Control flow uses
//! absolute instruction indices, which the assembler resolves from labels.

use vstd::prelude::*;

verus! {

/// A single PhiVM instruction.
#[derive(Clone, Copy, Debug, PartialEq, Eq, Structural)]
pub enum Instr {
    /// Push a constant.
    Push(u64),
    /// Drop the top of stack.
    Pop,
    /// Duplicate the top of stack.
    Dup,
    /// Swap the top two stack items.
    Swap,
    /// Checked addition: overflow traps rather than wraps.
    Add,
    /// Checked subtraction.
    Sub,
    /// Checked multiplication.
    Mul,
    /// Division; traps on a zero divisor.
    Div,
    /// Remainder; traps on a zero divisor.
    Mod,
    /// Push 1 if the operands are equal, else 0.
    Eq,
    /// Push 1 if the lower operand is the smaller one, else 0.
    Lt,
    /// Push 1 if the lower operand is the larger one, else 0.
    Gt,
    /// Boolean conjunction on 0/non-zero.
    And,
    /// Boolean disjunction on 0/non-zero.
    Or,
    /// Boolean negation on 0/non-zero.
    Not,
    /// Unconditional jump to an instruction index.
    Jump(usize),
    /// Pop a condition; jump to an index if it is non-zero.
    JumpIf(usize),
    /// Push call argument `i` (traps if out of range).
    Arg(usize),
    /// Push the caller handle.
    Caller,
    /// Push the figs value attached to the call.
    Value,
    /// Pop a key, push `storage[key]` (0 if absent).
    SLoad,
    /// Pop a value then a key; set `storage[key] = value`.
    SStore,
    /// Halt, returning the top of stack to the caller.
    Return,
    /// Halt with no return value.
    Halt,
    /// Abort: revert all storage writes and fail the call.
    Abort,
}

impl Instr {
    /// The price of one execution of this instruction.
    pub open spec fn gas(self) -> nat {
        match self {
            Instr::SStore => 100,
            Instr::SLoad => 20,
            Instr::Mul | Instr::Div | Instr::Mod => 5,
            _ => 1,
        }
    }

    /// Gas charged to execute this instruction. Storage writes are the most
    /// expensive (they grow consensus state); reads cost more than pure stack
    /// ops.
    pub fn gas_cost(&self) -> (cost: u64)
        ensures
            cost == self.gas(),
            1 <= cost <= 100,
    {
        match self {
            Instr::SStore => 100,
            Instr::SLoad => 20,
            Instr::Mul | Instr::Div | Instr::Mod => 5,
            _ => 1,
        }
    }
}

} // verus!
