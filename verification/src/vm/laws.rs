//! What programs may rely on: what each instruction does, said of the stack,
//! the storage and the call it finds, and what small programs return.

use vstd::prelude::*;

use crate::vm::examples;
use crate::vm::instr::Instr;
use crate::vm::machine;
use crate::vm::machine::{CallView, End, Machine, Outcome, Step, Trap};

verus! {

/// Constants and what the call brings are pushed on top of the stack, each
/// instruction its own: the constant, the caller, the attached value, or the
/// argument of that number, which must be there. A full stack traps.
pub proof fn law_pushes(m: Machine, code_len: nat, call: CallView, v: u64, i: usize)
    ensures
        m.stack.len() < 1024 ==> {
            let on_top = |x: u64|
                Step::Next(
                    Machine { pc: m.pc + 1, stack: m.stack.push(x), storage: m.storage },
                );
            &&& m.step(Instr::Push(v), code_len, call) == on_top(v)
            &&& m.step(Instr::Caller, code_len, call) == on_top(call.caller)
            &&& m.step(Instr::Value, code_len, call) == on_top(call.value)
            &&& i < call.args.len() ==> m.step(Instr::Arg(i), code_len, call) == on_top(
                call.args[i as int],
            )
        },
        m.stack.len() >= 1024 ==> {
            &&& m.step(Instr::Push(v), code_len, call) == Step::Fault(Trap::StackOverflow)
            &&& m.step(Instr::Caller, code_len, call) == Step::Fault(Trap::StackOverflow)
            &&& m.step(Instr::Value, code_len, call) == Step::Fault(Trap::StackOverflow)
            &&& i < call.args.len() ==> m.step(Instr::Arg(i), code_len, call) == Step::Fault(
                Trap::StackOverflow,
            )
        },
        i >= call.args.len() ==> m.step(Instr::Arg(i), code_len, call) == Step::Fault(
            Trap::BadArg,
        ),
{
}

/// Dropping, doubling and swapping rearrange the top of the stack and nothing
/// else.
pub proof fn law_stack_shuffles(
    pc: int,
    rest: Seq<u64>,
    a: u64,
    b: u64,
    storage: Map<u64, u64>,
    code_len: nat,
    call: CallView,
)
    requires
        rest.len() + 2 < 1024,
    ensures
        ({
            let m = Machine { pc, stack: rest.push(a).push(b), storage };
            let with = |stack: Seq<u64>| Step::Next(Machine { pc: pc + 1, stack, storage });
            &&& m.step(Instr::Pop, code_len, call) == with(rest.push(a))
            &&& m.step(Instr::Dup, code_len, call) == with(rest.push(a).push(b).push(b))
            &&& m.step(Instr::Swap, code_len, call) == with(rest.push(b).push(a))
        }),
{
    let stack = rest.push(a).push(b);
    let n = stack.len() as int;
    assert(stack.take(n - 1) =~= rest.push(a));
    assert(stack.take(n - 2) =~= rest);
}

/// Arithmetic takes two operands from the stack and leaves the exact result: it
/// traps where that does not fit, goes below zero, or divides by zero. Quotient
/// and remainder make up the dividend.
pub proof fn law_arithmetic_is_exact(
    pc: int,
    rest: Seq<u64>,
    a: u64,
    b: u64,
    q: u64,
    r: u64,
    storage: Map<u64, u64>,
    code_len: nat,
    call: CallView,
)
    requires
        rest.len() < 1024,
    ensures
        ({
            let m = Machine { pc, stack: rest.push(a).push(b), storage };
            let leaves = |x: int|
                Step::Next(Machine { pc: pc + 1, stack: rest.push(x as u64), storage });
            &&& m.step(Instr::Add, code_len, call) == (if a + b <= u64::MAX {
                leaves(a + b)
            } else {
                Step::Fault(Trap::Overflow)
            })
            &&& m.step(Instr::Sub, code_len, call) == (if b <= a {
                leaves(a - b)
            } else {
                Step::Fault(Trap::Overflow)
            })
            &&& m.step(Instr::Mul, code_len, call) == (if a * b <= u64::MAX {
                leaves(a * b)
            } else {
                Step::Fault(Trap::Overflow)
            })
            &&& b == 0 ==> m.step(Instr::Div, code_len, call) == Step::Fault(Trap::DivByZero)
                && m.step(Instr::Mod, code_len, call) == Step::Fault(Trap::DivByZero)
            &&& q * b + r == a && r < b ==> m.step(Instr::Div, code_len, call) == leaves(q as int)
                && m.step(Instr::Mod, code_len, call) == leaves(r as int)
        }),
{
    let m = Machine { pc, stack: rest.push(a).push(b), storage };
    let n = m.stack.len() as int;
    assert(m.stack.take(n - 2) =~= rest);
    if q * b + r == a && r < b {
        vstd::arithmetic::div_mod::lemma_fundamental_div_mod_converse(
            a as int,
            b as int,
            q as int,
            r as int,
        );
    }
}

/// Comparison and logic leave one for true and zero for false. Any number but
/// zero counts as true.
pub proof fn law_logic_is_zero_or_one(
    pc: int,
    rest: Seq<u64>,
    a: u64,
    b: u64,
    storage: Map<u64, u64>,
    code_len: nat,
    call: CallView,
)
    requires
        rest.len() + 1 < 1024,
    ensures
        ({
            let m = Machine { pc, stack: rest.push(a).push(b), storage };
            let leaves = |x: bool|
                Step::Next(
                    Machine {
                        pc: pc + 1,
                        stack: rest.push(
                            if x {
                                1u64
                            } else {
                                0u64
                            },
                        ),
                        storage,
                    },
                );
            &&& m.step(Instr::Eq, code_len, call) == leaves(a == b)
            &&& m.step(Instr::Lt, code_len, call) == leaves(a < b)
            &&& m.step(Instr::Gt, code_len, call) == leaves(a > b)
            &&& m.step(Instr::And, code_len, call) == leaves(a != 0 && b != 0)
            &&& m.step(Instr::Or, code_len, call) == leaves(a != 0 || b != 0)
            &&& m.step(Instr::Not, code_len, call) == Step::Next(
                Machine {
                    pc: pc + 1,
                    stack: rest.push(a).push(
                        if b == 0 {
                            1u64
                        } else {
                            0u64
                        },
                    ),
                    storage,
                },
            )
        }),
{
    let m = Machine { pc, stack: rest.push(a).push(b), storage };
    let n = m.stack.len() as int;
    assert(m.stack.take(n - 2) =~= rest);
    assert(m.stack.take(n - 1) =~= rest.push(a));
}

/// A store writes the upper operand under the lower one and touches no other
/// slot; a load gives what its slot holds, and zero where nothing was stored.
pub proof fn law_storage_keeps_what_is_stored(
    pc: int,
    rest: Seq<u64>,
    key: u64,
    v: u64,
    storage: Map<u64, u64>,
    code_len: nat,
    call: CallView,
)
    requires
        rest.len() < 1024,
    ensures
        (Machine { pc, stack: rest.push(key).push(v), storage }).step(
            Instr::SStore,
            code_len,
            call,
        ) == Step::Next(Machine { pc: pc + 1, stack: rest, storage: storage.insert(key, v) }),
        (Machine { pc, stack: rest.push(key), storage }).step(Instr::SLoad, code_len, call)
            == Step::Next(
            Machine {
                pc: pc + 1,
                stack: rest.push(
                    if storage.contains_key(key) {
                        storage[key]
                    } else {
                        0
                    },
                ),
                storage,
            },
        ),
{
    let two = rest.push(key).push(v);
    assert(two.take(two.len() - 2) =~= rest);
    assert(rest.push(key).take(rest.len() as int) =~= rest);
}

/// A jump goes to the instruction of that number, which must exist; a
/// conditional one only if its operand is not zero, and else to the next.
pub proof fn law_jumps_go_where_they_say(
    pc: int,
    rest: Seq<u64>,
    cond: u64,
    storage: Map<u64, u64>,
    target: usize,
    code_len: nat,
    call: CallView,
)
    ensures
        ({
            let m = Machine { pc, stack: rest.push(cond), storage };
            let jump = m.step(Instr::Jump(target), code_len, call);
            let branch = m.step(Instr::JumpIf(target), code_len, call);
            &&& target < code_len ==> jump == Step::Next(Machine { pc: target as int, ..m })
            &&& target >= code_len ==> jump == Step::Fault(Trap::InvalidJump)
            &&& cond == 0 ==> branch == Step::Next(Machine { pc: pc + 1, stack: rest, storage })
            &&& cond != 0 && target < code_len ==> branch == Step::Next(
                Machine { pc: target as int, stack: rest, storage },
            )
            &&& cond != 0 && target >= code_len ==> branch == Step::Fault(Trap::InvalidJump)
        }),
{
    assert(rest.push(cond).take(rest.len() as int) =~= rest);
}

/// A call ends with the top of the stack, with nothing, or in failure.
pub proof fn law_stops(m: Machine, code_len: nat, call: CallView)
    ensures
        m.stack.len() > 0 ==> m.step(Instr::Return, code_len, call) == Step::Done(
            Some(m.stack.last()),
        ),
        m.step(Instr::Halt, code_len, call) == Step::Done(None),
        m.step(Instr::Abort, code_len, call) == Step::Fault(Trap::Aborted),
{
}

/// How many operands an instruction takes from the stack.
pub open spec fn operands(instr: Instr) -> nat {
    match instr {
        Instr::Push(_) | Instr::Caller | Instr::Value | Instr::Arg(_) => 0,
        Instr::Jump(_) | Instr::Halt | Instr::Abort => 0,
        Instr::Pop | Instr::Dup | Instr::Not | Instr::JumpIf(_) | Instr::SLoad | Instr::Return => 1,
        Instr::Swap | Instr::SStore => 2,
        Instr::Add | Instr::Sub | Instr::Mul | Instr::Div | Instr::Mod => 2,
        Instr::Eq | Instr::Lt | Instr::Gt | Instr::And | Instr::Or => 2,
    }
}

/// An instruction that lacks operands traps, and for no other reason is there an
/// underflow.
pub proof fn law_missing_operands_trap(m: Machine, instr: Instr, code_len: nat, call: CallView)
    ensures
        m.step(instr, code_len, call) == Step::Fault(Trap::StackUnderflow) <==> m.stack.len()
            < operands(instr),
{
}

/// Storage changes by storing alone.
pub proof fn law_only_stores_write(m: Machine, instr: Instr, code_len: nat, call: CallView)
    requires
        instr != Instr::SStore,
    ensures
        m.step(instr, code_len, call) matches Step::Next(next) ==> next.storage == m.storage,
{
}

/// The prices: a write costs the most, a read less, multiplication and division
/// a little more than anything else, and nothing is free.
pub proof fn law_gas_prices(instr: Instr)
    ensures
        Instr::SStore.gas() == 100,
        Instr::SLoad.gas() == 20,
        Instr::Mul.gas() == 5 && Instr::Div.gas() == 5 && Instr::Mod.gas() == 5,
        instr != Instr::SStore && instr != Instr::SLoad && instr != Instr::Mul && instr
            != Instr::Div && instr != Instr::Mod ==> instr.gas() == 1,
{
}

/// A run charges each instruction before it executes it, goes on where the
/// instruction leads, and stops where it stops: at the end of the code, out of
/// gas, done, or trapped. What it has stored is left behind.
pub proof fn law_runs_go_step_by_step(
    m: Machine,
    code: Seq<Instr>,
    call: CallView,
    gas_used: nat,
    gas_limit: nat,
)
    requires
        gas_used <= gas_limit <= u64::MAX,
    ensures
        ({
            let end = m.run(code, call, gas_used, gas_limit);
            let at = code[m.pc];
            let spent = gas_used + at.gas();
            if !(0 <= m.pc < code.len()) {
                &&& end.storage == m.storage
                &&& end.result matches Ok(o) && o.return_value is None && o.gas_used == gas_used
            } else if spent > gas_limit {
                end.storage == m.storage && end.result == Err::<Outcome, Trap>(Trap::OutOfGas)
            } else {
                match m.step(at, code.len(), call) {
                    Step::Next(next) => end == next.run(code, call, spent, gas_limit),
                    Step::Done(v) => {
                        &&& end.storage == m.storage
                        &&& end.result matches Ok(o) && o.return_value == v && o.gas_used == spent
                    },
                    Step::Fault(trap) => {
                        end.storage == m.storage && end.result == Err::<Outcome, Trap>(trap)
                    },
                }
            }
        }),
{
}

/// A call starts at the first instruction, with an empty stack, on the storage
/// of the contract.
pub proof fn law_calls_start_afresh(storage: Map<u64, u64>)
    ensures
        machine::boot(storage).pc == 0,
        machine::boot(storage).stack.len() == 0,
        machine::boot(storage).storage == storage,
{
}

/// A program that pushes a value and returns it.
proof fn lemma_push_and_return(
    first: Instr,
    v: u64,
    storage: Map<u64, u64>,
    call: CallView,
    gas_limit: u64,
)
    requires
        gas_limit >= 2,
        first.gas() == 1,
        machine::boot(storage).step(first, 2, call) == Step::Next(
            Machine { pc: 1, stack: seq![v], storage },
        ),
    ensures
        machine::call_end(seq![first, Instr::Return], storage, call, gas_limit) == (End {
            result: Ok(Outcome { return_value: Some(v), gas_used: 2 }),
            storage,
        }),
{
    let code = seq![first, Instr::Return];
    let next = Machine { pc: 1, stack: seq![v], storage };
    assert(code.len() == 2 && code[0] == first && code[1] == Instr::Return);
    assert(machine::boot(storage).run(code, call, 0, gas_limit as nat) == next.run(
        code,
        call,
        1,
        gas_limit as nat,
    ));
    assert(next.stack.len() == 1 && next.stack[0] == v);
}

/// Every call can ask who made it, what came with it and what it was given: the
/// caller, the attached value, and each argument by its number.
pub proof fn law_programs_see_their_call(
    storage: Map<u64, u64>,
    call: CallView,
    gas_limit: u64,
    v: u64,
    i: usize,
)
    requires
        gas_limit >= 2,
    ensures
        ({
            let returned = |x: u64|
                (End { result: Ok(Outcome { return_value: Some(x), gas_used: 2 }), storage });
            &&& machine::call_end(seq![Instr::Push(v), Instr::Return], storage, call, gas_limit)
                == returned(v)
            &&& machine::call_end(seq![Instr::Caller, Instr::Return], storage, call, gas_limit)
                == returned(call.caller)
            &&& machine::call_end(seq![Instr::Value, Instr::Return], storage, call, gas_limit)
                == returned(call.value)
            &&& i < call.args.len() ==> machine::call_end(
                seq![Instr::Arg(i), Instr::Return],
                storage,
                call,
                gas_limit,
            ) == returned(call.args[i as int])
            &&& i >= call.args.len() ==> machine::call_end(
                seq![Instr::Arg(i), Instr::Return],
                storage,
                call,
                gas_limit,
            ).result == Err::<Outcome, Trap>(Trap::BadArg)
        }),
{
    let start = machine::boot(storage);
    law_pushes(start, 2, call, v, i);
    assert(start.stack.push(v) =~= seq![v]);
    assert(start.stack.push(call.caller) =~= seq![call.caller]);
    assert(start.stack.push(call.value) =~= seq![call.value]);
    lemma_push_and_return(Instr::Push(v), v, storage, call, gas_limit);
    lemma_push_and_return(Instr::Caller, call.caller, storage, call, gas_limit);
    lemma_push_and_return(Instr::Value, call.value, storage, call, gas_limit);
    if i < call.args.len() {
        let x = call.args[i as int];
        assert(start.stack.push(x) =~= seq![x]);
        lemma_push_and_return(Instr::Arg(i), x, storage, call, gas_limit);
    } else {
        let code = seq![Instr::Arg(i), Instr::Return];
        assert(code[0] == Instr::Arg(i));
    }
}

/// The token moves what it is told between two balances, to the fig: the
/// caller's goes down, the recipient's goes up, and all others stay.
pub proof fn law_token_balances(
    storage: Map<u64, u64>,
    call: CallView,
    gas_limit: u64,
    who: u64,
)
    requires
        gas_limit >= 282,
        call.args.len() >= 3,
        call.args[0] == 1,
    ensures
        ({
            let from = call.caller;
            let to = call.args[1];
            let amount = call.args[2];
            let end = machine::call_end(examples::token_code(), storage, call, gas_limit);
            let held = |m: Map<u64, u64>, k: u64|
                if m.contains_key(k) {
                    m[k] as int
                } else {
                    0
                };
            &&& end.result is Ok <==> held(storage, from) >= amount && (to == from || held(
                storage,
                to,
            ) + amount <= u64::MAX)
            &&& end.result matches Ok(o) ==> {
                &&& o.return_value == Some(1u64)
                &&& held(end.storage, who) == held(storage, who) - (if who == from {
                    amount as int
                } else {
                    0
                }) + (if who == to {
                    amount as int
                } else {
                    0
                })
            }
        }),
{
    examples::law_token_transfer(storage, call, gas_limit);
}

/// Asking the token for a balance returns it and changes nothing.
pub proof fn law_token_tells_balances(storage: Map<u64, u64>, call: CallView, gas_limit: u64)
    requires
        gas_limit >= 26,
        call.args.len() >= 2,
        call.args[0] == 0,
    ensures
        ({
            let end = machine::call_end(examples::token_code(), storage, call, gas_limit);
            &&& end.storage == storage
            &&& end.result matches Ok(o) && o.return_value == Some(
                if storage.contains_key(call.args[1]) {
                    storage[call.args[1]]
                } else {
                    0
                },
            )
        }),
{
    examples::law_token_balance_of(storage, call, gas_limit);
}

/// The counter returns one more than it held, and keeps it.
pub proof fn law_counter_counts(storage: Map<u64, u64>, call: CallView, gas_limit: u64)
    requires
        gas_limit >= 146,
        !storage.contains_key(0) || storage[0] < u64::MAX,
    ensures
        ({
            let end = machine::call_end(examples::counter_code(), storage, call, gas_limit);
            let held = if storage.contains_key(0) {
                storage[0] as int
            } else {
                0
            };
            &&& end.result matches Ok(o) && o.return_value == Some((held + 1) as u64)
            &&& end.storage.contains_key(0) && end.storage[0] == held + 1
            &&& forall|k: u64|
                k != 0 ==> #[trigger] end.storage.contains_key(k) == storage.contains_key(k)
                    && end.storage[k] == storage[k]
        }),
{
    examples::law_counter_call(storage, call, gas_limit);
}

} // verus!
