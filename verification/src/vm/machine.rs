//! The execution engine: a bounded, deterministic interpreter.

use std::collections::BTreeMap;
use vstd::prelude::*;

use crate::vm::instr::Instr;

verus! {

/// Maximum operand-stack depth. Bounds per-call memory independently of gas.
pub const MAX_STACK: usize = 1024;

/// Inputs to a contract call.
#[derive(Debug)]
pub struct CallContext {
    /// A stable handle for the calling account.
    pub caller: u64,
    /// Figs attached to the call.
    pub value: u64,
    /// Call arguments (e.g. `[selector, arg0, arg1, ...]`).
    pub args: Vec<u64>,
}

/// The contents of a [`CallContext`].
pub struct CallView {
    pub caller: u64,
    pub value: u64,
    pub args: Seq<u64>,
}

impl View for CallContext {
    type V = CallView;

    open spec fn view(&self) -> CallView {
        CallView { caller: self.caller, value: self.value, args: self.args@ }
    }
}

impl Clone for CallContext {
    fn clone(&self) -> (ctx: CallContext)
        ensures
            ctx@ == self@,
    {
        let args = self.args.clone();
        assert(args@ =~= self.args@);
        CallContext { caller: self.caller, value: self.value, args }
    }
}

impl Default for CallContext {
    fn default() -> (ctx: CallContext)
        ensures
            ctx.caller == 0,
            ctx.value == 0,
            ctx.args@ == Seq::<u64>::empty(),
    {
        CallContext { caller: 0, value: 0, args: Vec::new() }
    }
}

/// Why a contract call aborted. Every variant reverts all storage writes: the
/// call is atomic.
#[derive(Clone, Copy, Debug, PartialEq, Eq, Structural)]
pub enum Trap {
    /// Ran out of gas.
    OutOfGas,
    /// Operand stack exceeded [`MAX_STACK`].
    StackOverflow,
    /// Popped from an empty stack.
    StackUnderflow,
    /// Division or modulo by zero.
    DivByZero,
    /// Checked arithmetic overflowed/underflowed.
    Overflow,
    /// Jump target outside the code.
    InvalidJump,
    /// `Arg(i)` with `i` past the supplied arguments.
    BadArg,
    /// Executed the `Abort` instruction.
    Aborted,
}

/// Result of a successful call.
#[derive(Clone, Copy, Debug, PartialEq, Eq)]
pub struct Outcome {
    /// Value returned via `Return`, if any.
    pub return_value: Option<u64>,
    /// Total gas consumed.
    pub gas_used: u64,
}

/// A machine between two instructions.
#[verifier::ext_equal]
pub struct Machine {
    pub pc: int,
    pub stack: Seq<u64>,
    pub storage: Map<u64, u64>,
}

/// What one instruction does to a machine.
pub enum Step {
    /// Go on with this machine.
    Next(Machine),
    /// Stop successfully with this return value.
    Done(Option<u64>),
    /// Stop with a trap.
    Fault(Trap),
}

/// How a run ends: its result and the storage it leaves behind.
#[verifier::ext_equal]
pub struct End {
    pub result: Result<Outcome, Trap>,
    pub storage: Map<u64, u64>,
}

/// 1 for true, 0 for false.
pub open spec fn flag(b: bool) -> u64 {
    if b {
        1
    } else {
        0
    }
}

/// The two-operand instructions: `a` was pushed before `b`.
pub open spec fn binary(instr: Instr, a: u64, b: u64) -> Result<u64, Trap> {
    match instr {
        Instr::Add => if a + b <= u64::MAX {
            Ok((a + b) as u64)
        } else {
            Err(Trap::Overflow)
        },
        Instr::Sub => if a >= b {
            Ok((a - b) as u64)
        } else {
            Err(Trap::Overflow)
        },
        Instr::Mul => if a * b <= u64::MAX {
            Ok((a * b) as u64)
        } else {
            Err(Trap::Overflow)
        },
        Instr::Div => if b != 0 {
            Ok(a / b)
        } else {
            Err(Trap::DivByZero)
        },
        Instr::Mod => if b != 0 {
            Ok(a % b)
        } else {
            Err(Trap::DivByZero)
        },
        Instr::Eq => Ok(flag(a == b)),
        Instr::Lt => Ok(flag(a < b)),
        Instr::Gt => Ok(flag(a > b)),
        Instr::And => Ok(flag(a != 0 && b != 0)),
        _ => Ok(flag(a != 0 || b != 0)),
    }
}

/// What a storage slot holds; an absent slot reads as zero.
pub open spec fn slot(storage: Map<u64, u64>, key: u64) -> u64 {
    if storage.contains_key(key) {
        storage[key]
    } else {
        0
    }
}

impl Machine {
    /// The machine after an instruction that leaves `stack` behind.
    pub open spec fn then_stack(self, stack: Seq<u64>) -> Step {
        Step::Next(Machine { pc: self.pc + 1, stack, ..self })
    }

    /// The machine after an instruction that pushes `v` on `stack`.
    pub open spec fn then_push(self, stack: Seq<u64>, v: u64) -> Step {
        if stack.len() >= MAX_STACK {
            Step::Fault(Trap::StackOverflow)
        } else {
            self.then_stack(stack.push(v))
        }
    }

    /// The machine after a jump that leaves `stack` behind.
    pub open spec fn then_jump(self, stack: Seq<u64>, target: usize, code_len: nat) -> Step {
        if target >= code_len {
            Step::Fault(Trap::InvalidJump)
        } else {
            Step::Next(Machine { pc: target as int, stack, ..self })
        }
    }

    /// The effect of `instr`, its gas apart.
    pub open spec fn step(self, instr: Instr, code_len: nat, call: CallView) -> Step {
        let n = self.stack.len() as int;
        let top = self.stack[n - 1];
        let pop1 = self.stack.take(n - 1);
        let below = self.stack[n - 2];
        let pop2 = self.stack.take(n - 2);
        match instr {
            Instr::Push(v) => self.then_push(self.stack, v),
            Instr::Caller => self.then_push(self.stack, call.caller),
            Instr::Value => self.then_push(self.stack, call.value),
            Instr::Arg(i) => if i < call.args.len() {
                self.then_push(self.stack, call.args[i as int])
            } else {
                Step::Fault(Trap::BadArg)
            },
            Instr::Jump(target) => self.then_jump(self.stack, target, code_len),
            Instr::Halt => Step::Done(None),
            Instr::Abort => Step::Fault(Trap::Aborted),
            _ => if n < 1 {
                Step::Fault(Trap::StackUnderflow)
            } else {
                match instr {
                    Instr::Pop => self.then_stack(pop1),
                    Instr::Dup => self.then_push(self.stack, top),
                    Instr::Not => self.then_push(pop1, flag(top == 0)),
                    Instr::JumpIf(target) => if top != 0 {
                        self.then_jump(pop1, target, code_len)
                    } else {
                        self.then_stack(pop1)
                    },
                    Instr::SLoad => self.then_push(pop1, slot(self.storage, top)),
                    Instr::Return => Step::Done(Some(top)),
                    _ => if n < 2 {
                        Step::Fault(Trap::StackUnderflow)
                    } else {
                        match instr {
                            Instr::Swap => self.then_stack(pop2.push(top).push(below)),
                            Instr::SStore => Step::Next(
                                Machine {
                                    pc: self.pc + 1,
                                    stack: pop2,
                                    storage: self.storage.insert(below, top),
                                },
                            ),
                            _ => match binary(instr, below, top) {
                                Ok(v) => self.then_push(pop2, v),
                                Err(trap) => Step::Fault(trap),
                            },
                        }
                    },
                }
            },
        }
    }

    /// Runs from this machine on, `gas_used` having been spent. An instruction
    /// that cannot be paid for is not executed. Running off the end halts.
    pub open spec fn run(
        self,
        code: Seq<Instr>,
        call: CallView,
        gas_used: nat,
        gas_limit: nat,
    ) -> End
        decreases gas_limit - gas_used,
    {
        if !(0 <= self.pc < code.len()) {
            End {
                result: Ok(Outcome { return_value: None, gas_used: gas_used as u64 }),
                storage: self.storage,
            }
        } else {
            let instr = code[self.pc];
            let spent = gas_used + instr.gas();
            if spent > gas_limit {
                End { result: Err(Trap::OutOfGas), storage: self.storage }
            } else {
                match self.step(instr, code.len(), call) {
                    Step::Next(next) => next.run(code, call, spent, gas_limit),
                    Step::Done(v) => End {
                        result: Ok(Outcome { return_value: v, gas_used: spent as u64 }),
                        storage: self.storage,
                    },
                    Step::Fault(trap) => End { result: Err(trap), storage: self.storage },
                }
            }
        }
    }
}

/// The machine at the start of a call.
pub open spec fn boot(storage: Map<u64, u64>) -> Machine {
    Machine { pc: 0, stack: Seq::empty(), storage }
}

/// The end of a call of `code` on `storage`.
pub open spec fn call_end(
    code: Seq<Instr>,
    storage: Map<u64, u64>,
    call: CallView,
    gas_limit: u64,
) -> End {
    boot(storage).run(code, call, 0, gas_limit as nat)
}

/// Where control goes after one instruction.
enum Flow {
    Goto(usize),
    Stop(Option<u64>),
}

/// Pops the top of the stack.
fn pop(stack: &mut Vec<u64>) -> (top: Result<u64, Trap>)
    ensures
        old(stack)@.len() == 0 ==> top == Err::<u64, Trap>(Trap::StackUnderflow),
        old(stack)@.len() > 0 ==> {
            &&& top == Ok::<u64, Trap>(old(stack)@.last())
            &&& final(stack)@ == old(stack)@.take(old(stack)@.len() - 1)
        },
{
    match stack.pop() {
        Some(v) => {
            assert(stack@ =~= old(stack)@.take(old(stack)@.len() - 1));
            Ok(v)
        },
        None => Err(Trap::StackUnderflow),
    }
}

/// Pops the top two items: the upper one is the second of the pair.
fn pop2(stack: &mut Vec<u64>) -> (pair: Result<(u64, u64), Trap>)
    ensures
        old(stack)@.len() < 2 ==> pair == Err::<(u64, u64), Trap>(Trap::StackUnderflow),
        old(stack)@.len() >= 2 ==> {
            let n = old(stack)@.len() as int;
            &&& pair == Ok::<(u64, u64), Trap>((old(stack)@[n - 2], old(stack)@[n - 1]))
            &&& final(stack)@ == old(stack)@.take(n - 2)
        },
{
    let top: u64 = pop(stack)?;
    let below: u64 = pop(stack)?;
    assert(stack@ =~= old(stack)@.take(old(stack)@.len() - 2));
    Ok((below, top))
}

/// Pushes unless the stack is full.
fn push(stack: &mut Vec<u64>, v: u64) -> (done: Result<(), Trap>)
    ensures
        old(stack)@.len() >= MAX_STACK ==> done == Err::<(), Trap>(Trap::StackOverflow),
        old(stack)@.len() < MAX_STACK ==> done is Ok && final(stack)@ == old(stack)@.push(v),
{
    if stack.len() >= MAX_STACK {
        return Err(Trap::StackOverflow);
    }
    stack.push(v);
    Ok(())
}

/// Reads a storage slot.
fn load(storage: &BTreeMap<u64, u64>, key: u64) -> (v: u64)
    ensures
        v == slot(storage@, key),
{
    match storage.get(&key) {
        Some(v) => *v,
        None => 0,
    }
}

/// The result of a two-operand instruction.
fn combine(instr: Instr, a: u64, b: u64) -> (v: Result<u64, Trap>)
    ensures
        v == binary(instr, a, b),
{
    match instr {
        Instr::Add => match a.checked_add(b) {
            Some(v) => Ok(v),
            None => Err(Trap::Overflow),
        },
        Instr::Sub => match a.checked_sub(b) {
            Some(v) => Ok(v),
            None => Err(Trap::Overflow),
        },
        Instr::Mul => match a.checked_mul(b) {
            Some(v) => Ok(v),
            None => Err(Trap::Overflow),
        },
        Instr::Div => if b != 0 {
            Ok(a / b)
        } else {
            Err(Trap::DivByZero)
        },
        Instr::Mod => if b != 0 {
            Ok(a % b)
        } else {
            Err(Trap::DivByZero)
        },
        Instr::Eq => Ok(if a == b { 1 } else { 0 }),
        Instr::Lt => Ok(if a < b { 1 } else { 0 }),
        Instr::Gt => Ok(if a > b { 1 } else { 0 }),
        Instr::And => Ok(if a != 0 && b != 0 { 1 } else { 0 }),
        _ => Ok(if a != 0 || b != 0 { 1 } else { 0 }),
    }
}

/// Whether `flow`, with what the instruction made of stack and storage, is
/// what `step` says.
spec fn agrees(
    step: Step,
    flow: Result<Flow, Trap>,
    stack: Seq<u64>,
    before: Map<u64, u64>,
    after: Map<u64, u64>,
) -> bool {
    match step {
        Step::Next(m) => {
            &&& flow matches Ok(Flow::Goto(pc)) && pc == m.pc
            &&& stack == m.stack
            &&& after == m.storage
        },
        Step::Done(v) => flow == Ok::<Flow, Trap>(Flow::Stop(v)) && after == before,
        Step::Fault(trap) => flow == Err::<Flow, Trap>(trap) && after == before,
    }
}

/// Executes one instruction, its gas apart.
fn step_exec(
    instr: Instr,
    pc: usize,
    code_len: usize,
    stack: &mut Vec<u64>,
    storage: &mut BTreeMap<u64, u64>,
    ctx: &CallContext,
) -> (flow: Result<Flow, Trap>)
    requires
        pc < code_len,
    ensures
        agrees(
            (Machine { pc: pc as int, stack: old(stack)@, storage: old(storage)@ }).step(
                instr,
                code_len as nat,
                ctx@,
            ),
            flow,
            final(stack)@,
            old(storage)@,
            final(storage)@,
        ),
{
    match instr {
        Instr::Push(v) => push(stack, v)?,
        Instr::Pop => {
            pop(stack)?;
        },
        Instr::Dup => {
            let n: usize = stack.len();
            if n == 0 {
                return Err(Trap::StackUnderflow);
            }
            let v: u64 = stack[n - 1];
            push(stack, v)?;
        },
        Instr::Swap => {
            let (below, top): (u64, u64) = pop2(stack)?;
            stack.push(top);
            stack.push(below);
        },
        Instr::Not => {
            let a: u64 = pop(stack)?;
            push(stack, if a == 0 { 1 } else { 0 })?;
        },
        Instr::Jump(target) => {
            if target >= code_len {
                return Err(Trap::InvalidJump);
            }
            return Ok(Flow::Goto(target));
        },
        Instr::JumpIf(target) => {
            let cond: u64 = pop(stack)?;
            if cond != 0 {
                if target >= code_len {
                    return Err(Trap::InvalidJump);
                }
                return Ok(Flow::Goto(target));
            }
        },
        Instr::Arg(i) => {
            if i >= ctx.args.len() {
                return Err(Trap::BadArg);
            }
            push(stack, ctx.args[i])?;
        },
        Instr::Caller => push(stack, ctx.caller)?,
        Instr::Value => push(stack, ctx.value)?,
        Instr::SLoad => {
            let key: u64 = pop(stack)?;
            push(stack, load(storage, key))?;
        },
        Instr::SStore => {
            let (key, value): (u64, u64) = pop2(stack)?;
            storage.insert(key, value);
        },
        Instr::Return => {
            let v: u64 = pop(stack)?;
            return Ok(Flow::Stop(Some(v)));
        },
        Instr::Halt => return Ok(Flow::Stop(None)),
        Instr::Abort => return Err(Trap::Aborted),
        _ => {
            let (a, b): (u64, u64) = pop2(stack)?;
            let v: u64 = combine(instr, a, b)?;
            push(stack, v)?;
        },
    }
    Ok(Flow::Goto(pc + 1))
}

/// Execute `code` against `storage`, mutating it in place. Returns the call
/// outcome, or a [`Trap`], in which case the caller is responsible for
/// discarding any storage changes: see
/// [`crate::vm::contract::Contract::call`], which makes the call atomic.
///
/// Bounded by `gas_limit` and [`MAX_STACK`].
pub fn execute(
    code: &[Instr],
    storage: &mut BTreeMap<u64, u64>,
    ctx: &CallContext,
    gas_limit: u64,
) -> (result: Result<Outcome, Trap>)
    ensures
        call_end(code@, old(storage)@, ctx@, gas_limit) == (End {
            result,
            storage: final(storage)@,
        }),
        result matches Ok(outcome) ==> outcome.gas_used <= gas_limit,
{
    let mut stack: Vec<u64> = Vec::new();
    let mut pc: usize = 0;
    let mut gas_used: u64 = 0;
    let ghost goal = call_end(code@, storage@, ctx@, gas_limit);
    assert((Machine { pc: 0, stack: stack@, storage: storage@ }) =~= boot(storage@));
    while pc < code.len()
        invariant
            gas_used <= gas_limit,
            goal == call_end(code@, old(storage)@, ctx@, gas_limit),
            (Machine { pc: pc as int, stack: stack@, storage: storage@ }).run(
                code@,
                ctx@,
                gas_used as nat,
                gas_limit as nat,
            ) == goal,
        decreases gas_limit - gas_used,
    {
        let instr: Instr = code[pc];
        // Charge gas before executing; a step you can't afford traps.
        let cost: u64 = instr.gas_cost();
        if cost > gas_limit - gas_used {
            return Err(Trap::OutOfGas);
        }
        gas_used += cost;
        match step_exec(instr, pc, code.len(), &mut stack, storage, ctx)? {
            Flow::Goto(next) => {
                pc = next;
            },
            Flow::Stop(return_value) => {
                return Ok(Outcome { return_value, gas_used });
            },
        }
    }
    // Ran off the end: equivalent to Halt.
    Ok(Outcome { return_value: None, gas_used })
}

/// One instruction never makes the stack deeper than [`MAX_STACK`].
pub proof fn law_stack_stays_bounded(m: Machine, instr: Instr, code_len: nat, call: CallView)
    requires
        m.stack.len() <= MAX_STACK,
    ensures
        m.step(instr, code_len, call) matches Step::Next(next) ==> next.stack.len() <= MAX_STACK,
{
}

/// A successful run spends no more than its limit, and more gas changes
/// nothing: neither the outcome, nor the gas that is reported, nor the
/// storage.
pub proof fn law_spare_gas_is_irrelevant(
    m: Machine,
    code: Seq<Instr>,
    call: CallView,
    gas_used: nat,
    limit: u64,
    higher: u64,
)
    requires
        gas_used <= limit <= higher,
        m.run(code, call, gas_used, limit as nat).result is Ok,
    ensures
        m.run(code, call, gas_used, higher as nat) == m.run(code, call, gas_used, limit as nat),
        m.run(code, call, gas_used, limit as nat).result->Ok_0.gas_used <= limit,
    decreases limit - gas_used,
{
    if 0 <= m.pc < code.len() {
        let instr = code[m.pc];
        if let Step::Next(next) = m.step(instr, code.len(), call) {
            law_spare_gas_is_irrelevant(next, code, call, gas_used + instr.gas(), limit, higher);
        }
    }
}

/// With less gas than a run used, the same run ends out of gas.
pub proof fn law_less_gas_runs_out(
    m: Machine,
    code: Seq<Instr>,
    call: CallView,
    gas_used: nat,
    limit: u64,
    less: u64,
)
    requires
        gas_used <= less <= limit,
        m.run(code, call, gas_used, limit as nat).result is Ok,
        less < m.run(code, call, gas_used, limit as nat).result->Ok_0.gas_used,
    ensures
        m.run(code, call, gas_used, less as nat).result == Err::<Outcome, Trap>(Trap::OutOfGas),
    decreases limit - gas_used,
{
    if 0 <= m.pc < code.len() {
        let instr = code[m.pc];
        if gas_used + instr.gas() <= less {
            if let Step::Next(next) = m.step(instr, code.len(), call) {
                law_less_gas_runs_out(next, code, call, gas_used + instr.gas(), limit, less);
            }
        }
    }
}

} // verus!
