//! Example contracts, used by tests and the simulation: a stateful counter
//! and a balance-checked token transfer with atomic revert.

use vstd::prelude::*;

use crate::sums;
use crate::vm::assembler;
use crate::vm::assembler::Op;
use crate::vm::instr::Instr;
use crate::vm::machine;
use crate::vm::machine::{CallView, Outcome, Trap};
use crate::vm::token;

verus! {

/// Storage slot holding the counter value.
pub const COUNTER_SLOT: u64 = 0;

const L_BALANCE: u32 = 0;

const L_TRANSFER: u32 = 1;

const L_FAIL: u32 = 2;

/// The counter program.
pub open spec fn counter_code() -> Seq<Instr> {
    seq![
        Instr::Push(COUNTER_SLOT),
        Instr::Push(COUNTER_SLOT),
        Instr::SLoad,
        Instr::Push(1),
        Instr::Add,
        Instr::SStore,
        Instr::Push(COUNTER_SLOT),
        Instr::SLoad,
        Instr::Return,
    ]
}

/// The token program.
pub open spec fn token_code() -> Seq<Instr> {
    seq![
        Instr::Arg(0),
        Instr::Push(token::BALANCE_OF),
        Instr::Eq,
        Instr::JumpIf(9),
        Instr::Arg(0),
        Instr::Push(token::TRANSFER),
        Instr::Eq,
        Instr::JumpIf(12),
        Instr::Abort,
        Instr::Arg(1),
        Instr::SLoad,
        Instr::Return,
        Instr::Caller,
        Instr::SLoad,
        Instr::Arg(2),
        Instr::Lt,
        Instr::JumpIf(31),
        Instr::Caller,
        Instr::Caller,
        Instr::SLoad,
        Instr::Arg(2),
        Instr::Sub,
        Instr::SStore,
        Instr::Arg(1),
        Instr::Arg(1),
        Instr::SLoad,
        Instr::Arg(2),
        Instr::Add,
        Instr::SStore,
        Instr::Push(1),
        Instr::Return,
        Instr::Abort,
    ]
}

/// The token program before its labels are resolved.
spec fn token_ops() -> Seq<Op> {
    seq![
        Op::I(Instr::Arg(0)),
        Op::I(Instr::Push(token::BALANCE_OF)),
        Op::I(Instr::Eq),
        Op::JumpIf(L_BALANCE),
        Op::I(Instr::Arg(0)),
        Op::I(Instr::Push(token::TRANSFER)),
        Op::I(Instr::Eq),
        Op::JumpIf(L_TRANSFER),
        Op::I(Instr::Abort),
        Op::Label(L_BALANCE),
        Op::I(Instr::Arg(1)),
        Op::I(Instr::SLoad),
        Op::I(Instr::Return),
        Op::Label(L_TRANSFER),
        Op::I(Instr::Caller),
        Op::I(Instr::SLoad),
        Op::I(Instr::Arg(2)),
        Op::I(Instr::Lt),
        Op::JumpIf(L_FAIL),
        Op::I(Instr::Caller),
        Op::I(Instr::Caller),
        Op::I(Instr::SLoad),
        Op::I(Instr::Arg(2)),
        Op::I(Instr::Sub),
        Op::I(Instr::SStore),
        Op::I(Instr::Arg(1)),
        Op::I(Instr::Arg(1)),
        Op::I(Instr::SLoad),
        Op::I(Instr::Arg(2)),
        Op::I(Instr::Add),
        Op::I(Instr::SStore),
        Op::I(Instr::Push(1)),
        Op::I(Instr::Return),
        Op::Label(L_FAIL),
        Op::I(Instr::Abort),
    ]
}

/// A counter contract: each call increments `storage[COUNTER_SLOT]` and
/// returns the new value.
pub fn counter() -> (code: Vec<Instr>)
    ensures
        code@ == counter_code(),
{
    let code = vec![
        Instr::Push(COUNTER_SLOT),  // key for the eventual SStore
        Instr::Push(COUNTER_SLOT),
        Instr::SLoad,  // [key, count]
        Instr::Push(1),
        Instr::Add,  // [key, count+1]
        Instr::SStore,  // storage[0] = count+1
        Instr::Push(COUNTER_SLOT),
        Instr::SLoad,
        Instr::Return,
    ];
    assert(code@ =~= counter_code());
    code
}

/// A minimal fungible-token contract. Balances live in storage keyed by
/// account handle. `transfer` checks the caller's balance and reverts
/// (atomically) on insufficient funds or overflow.
pub fn token_contract() -> (code: Vec<Instr>)
    ensures
        code@ == token_code(),
{
    let ops: [Op; 35] = [
        // dispatch on selector
        Op::I(Instr::Arg(0)),
        Op::I(Instr::Push(token::BALANCE_OF)),
        Op::I(Instr::Eq),
        Op::JumpIf(L_BALANCE),
        Op::I(Instr::Arg(0)),
        Op::I(Instr::Push(token::TRANSFER)),
        Op::I(Instr::Eq),
        Op::JumpIf(L_TRANSFER),
        Op::I(Instr::Abort),  // unknown selector
        // balanceOf(args[1]) -> storage[args[1]]
        Op::Label(L_BALANCE),
        Op::I(Instr::Arg(1)),
        Op::I(Instr::SLoad),
        Op::I(Instr::Return),
        // transfer(to=args[1], amount=args[2])
        Op::Label(L_TRANSFER),
        Op::I(Instr::Caller),
        Op::I(Instr::SLoad),  // [bal]
        Op::I(Instr::Arg(2)),
        Op::I(Instr::Lt),  // bal < amount ?
        Op::JumpIf(L_FAIL),
        // debit: storage[caller] = bal - amount
        Op::I(Instr::Caller),
        Op::I(Instr::Caller),
        Op::I(Instr::SLoad),
        Op::I(Instr::Arg(2)),
        Op::I(Instr::Sub),
        Op::I(Instr::SStore),
        // credit: storage[to] = storage[to] + amount (checked add reverts on overflow)
        Op::I(Instr::Arg(1)),
        Op::I(Instr::Arg(1)),
        Op::I(Instr::SLoad),
        Op::I(Instr::Arg(2)),
        Op::I(Instr::Add),
        Op::I(Instr::SStore),
        Op::I(Instr::Push(1)),
        Op::I(Instr::Return),
        Op::Label(L_FAIL),
        Op::I(Instr::Abort),
    ];
    proof {
        assert(ops@ =~= token_ops());
        lemma_token_assembles(ops@);
    }
    match assembler::assemble(&ops) {
        Ok(code) => code,
        Err(_) => Vec::new(),
    }
}

proof fn lemma_token_labels(ops: Seq<Op>)
    requires
        ops == token_ops(),
    ensures
        assembler::target(ops, L_BALANCE) == assembler::emitted(ops.take(9)),
        assembler::target(ops, L_TRANSFER) == assembler::emitted(ops.take(13)),
        assembler::target(ops, L_FAIL) == assembler::emitted(ops.take(33)),
        assembler::first_duplicate(ops) is None,
        assembler::first_undefined(ops, ops) is None,
{
    assert forall|i: int| 0 <= i < ops.len() && #[trigger] ops[i] is Label implies i == 9 || i == 13
        || i == 33 by {}
    assert forall|i: int| 0 <= i < ops.len() && #[trigger] ops[i] is JumpIf implies ops[i]
        == Op::JumpIf(L_BALANCE) || ops[i] == Op::JumpIf(L_TRANSFER) || ops[i] == Op::JumpIf(
        L_FAIL,
    ) by {}
    assert forall|i: int| 0 <= i < ops.len() implies !(#[trigger] ops[i] is Jump) by {}
    assembler::lemma_target_of_only_label(ops, 9, L_BALANCE);
    assembler::lemma_target_of_only_label(ops, 13, L_TRANSFER);
    assembler::lemma_target_of_only_label(ops, 33, L_FAIL);
    assembler::lemma_distinct_labels(ops);
    assembler::lemma_all_defined(ops, ops);
}

proof fn lemma_token_assembles(ops: Seq<Op>)
    requires
        ops == token_ops(),
    ensures
        assembler::assembled(ops) == Ok::<Seq<Instr>, assembler::AsmError>(token_code()),
{
    lemma_token_labels(ops);
    assert forall|i: int| 0 <= i < ops.len() && #[trigger] ops[i] is Label implies i == 9 || i == 13
        || i == 33 by {}
    assert(ops.take(0) =~= Seq::<Op>::empty());
    assembler::lemma_emit_stretch(ops, ops, 0, 9);
    assembler::lemma_prefix_grows(ops, ops, 9);
    assembler::lemma_emit_stretch(ops, ops, 10, 13);
    assembler::lemma_prefix_grows(ops, ops, 13);
    assembler::lemma_emit_stretch(ops, ops, 14, 33);
    assembler::lemma_prefix_grows(ops, ops, 33);
    assembler::lemma_emit_stretch(ops, ops, 34, 35);
    assert(ops.take(35) =~= ops);
    assert(assembler::emit(ops, ops) =~= token_code());
}

/// Gas that one counter call takes.
pub const COUNTER_GAS: u64 = 146;

/// Gas that one token balance query takes.
pub const BALANCE_OF_GAS: u64 = 26;

/// Gas that one token transfer takes.
pub const TRANSFER_GAS: u64 = 282;

/// A paid-for counter call adds one to the counter and returns the new value;
/// at the largest value it traps.
pub proof fn law_counter_call(storage: Map<u64, u64>, call: CallView, gas_limit: u64)
    requires
        gas_limit >= COUNTER_GAS,
    ensures
        ({
            let count = machine::slot(storage, COUNTER_SLOT);
            let end = machine::call_end(counter_code(), storage, call, gas_limit);
            if count == u64::MAX {
                end.result == Err::<Outcome, Trap>(Trap::Overflow)
            } else {
                &&& end.result == Ok::<Outcome, Trap>(
                    Outcome { return_value: Some((count + 1) as u64), gas_used: COUNTER_GAS },
                )
                &&& end.storage == storage.insert(COUNTER_SLOT, (count + 1) as u64)
            }
        }),
{
    reveal_with_fuel(machine::Machine::run, 10);
}

/// A counter call that is not fully paid for traps, and so leaves no trace.
pub proof fn law_counter_needs_gas(storage: Map<u64, u64>, call: CallView, gas_limit: u64)
    requires
        gas_limit < COUNTER_GAS,
        machine::slot(storage, COUNTER_SLOT) < u64::MAX,
    ensures
        machine::call_end(counter_code(), storage, call, gas_limit).result == Err::<Outcome, Trap>(
            Trap::OutOfGas,
        ),
{
    reveal_with_fuel(machine::Machine::run, 10);
}

/// `balanceOf` returns the account's balance and changes nothing.
pub proof fn law_token_balance_of(storage: Map<u64, u64>, call: CallView, gas_limit: u64)
    requires
        gas_limit >= BALANCE_OF_GAS,
        call.args.len() >= 2,
        call.args[0] == token::BALANCE_OF,
    ensures
        machine::call_end(token_code(), storage, call, gas_limit) == (machine::End {
            result: Ok(
                Outcome {
                    return_value: Some(machine::slot(storage, call.args[1])),
                    gas_used: BALANCE_OF_GAS,
                },
            ),
            storage,
        }),
{
    reveal_with_fuel(machine::Machine::run, 8);
}

/// What a transfer of `amount` leaves in storage.
pub open spec fn transferred(storage: Map<u64, u64>, from: u64, to: u64, amount: u64) -> Map<
    u64,
    u64,
> {
    let debited = storage.insert(from, (machine::slot(storage, from) - amount) as u64);
    debited.insert(to, (machine::slot(debited, to) + amount) as u64)
}

/// A paid-for transfer debits the caller and credits the recipient. It aborts
/// if the caller holds too little, and traps if the credit would overflow.
pub proof fn law_token_transfer(storage: Map<u64, u64>, call: CallView, gas_limit: u64)
    requires
        gas_limit >= TRANSFER_GAS,
        call.args.len() >= 3,
        call.args[0] == token::TRANSFER,
    ensures
        ({
            let from = call.caller;
            let to = call.args[1];
            let amount = call.args[2];
            let have = machine::slot(storage, from);
            let credit = machine::slot(storage, to);
            let end = machine::call_end(token_code(), storage, call, gas_limit);
            if have < amount {
                end.result == Err::<Outcome, Trap>(Trap::Aborted)
            } else if to != from && credit + amount > u64::MAX {
                end.result == Err::<Outcome, Trap>(Trap::Overflow)
            } else {
                &&& end.result == Ok::<Outcome, Trap>(
                    Outcome { return_value: Some(1), gas_used: TRANSFER_GAS },
                )
                &&& end.storage == transferred(storage, from, to, amount)
            }
        }),
{
    let code = token_code();
    let limit = gas_limit as nat;
    let m0 = machine::boot(storage);
    let from = call.caller;
    let amount = call.args[2];
    let have = machine::slot(storage, from);
    // dispatch, up to the balance check
    let m1 = machine::Machine { pc: 12, stack: Seq::empty(), storage };
    assert(m0.run(code, call, 0, limit) == m1.run(code, call, 8, limit)) by {
        reveal_with_fuel(machine::Machine::run, 9);
        assert(m0.stack.push(call.args[0]).push(0u64).take(0) =~= Seq::empty());
        assert(m0.stack.push(0u64).take(0) =~= Seq::empty());
        assert(Seq::<u64>::empty().push(call.args[0]).push(1u64).take(0) =~= Seq::empty());
        assert(Seq::<u64>::empty().push(1u64).take(0) =~= Seq::empty());
    }
    assert(m1.stack.push(have).push(amount).take(0) =~= Seq::empty());
    assert(m1.stack.push(from).take(0) =~= Seq::empty());
    if have < amount {
        assert(m1.stack.push(1u64).take(0) =~= Seq::empty());
        reveal_with_fuel(machine::Machine::run, 7);
    } else {
        let m2 = machine::Machine { pc: 17, ..m1 };
        assert(m1.run(code, call, 8, limit) == m2.run(code, call, 32, limit)) by {
            assert(m1.stack.push(0u64).take(0) =~= Seq::empty());
            reveal_with_fuel(machine::Machine::run, 6);
        }
        lemma_token_debit(m2, call, limit);
        let debited = storage.insert(from, (have - amount) as u64);
        let m3 = machine::Machine { pc: 23, storage: debited, ..m1 };
        lemma_token_credit(m3, call, limit);
    }
}

proof fn lemma_token_debit(m: machine::Machine, call: CallView, limit: nat)
    requires
        m.pc == 17,
        m.stack == Seq::<u64>::empty(),
        call.args.len() >= 3,
        machine::slot(m.storage, call.caller) >= call.args[2],
        limit >= TRANSFER_GAS,
    ensures
        m.run(token_code(), call, 32, limit) == (machine::Machine {
            pc: 23,
            stack: Seq::empty(),
            storage: m.storage.insert(
                call.caller,
                (machine::slot(m.storage, call.caller) - call.args[2]) as u64,
            ),
        }).run(token_code(), call, 156, limit),
{
    let from = call.caller;
    let amount = call.args[2];
    let have = machine::slot(m.storage, from);
    let base = Seq::<u64>::empty().push(from);
    assert(base.push(from).take(1) =~= base);
    assert(base.push(have).push(amount).take(1) =~= base);
    assert(base.push((have - amount) as u64).take(0) =~= Seq::empty());
    reveal_with_fuel(machine::Machine::run, 7);
}

proof fn lemma_token_credit(m: machine::Machine, call: CallView, limit: nat)
    requires
        m.pc == 23,
        m.stack == Seq::<u64>::empty(),
        call.args.len() >= 3,
        limit >= TRANSFER_GAS,
    ensures
        ({
            let credit = machine::slot(m.storage, call.args[1]) + call.args[2];
            let end = m.run(token_code(), call, 156, limit);
            if credit > u64::MAX {
                end.result == Err::<Outcome, Trap>(Trap::Overflow)
            } else {
                &&& end.result == Ok::<Outcome, Trap>(
                    Outcome { return_value: Some(1), gas_used: TRANSFER_GAS },
                )
                &&& end.storage == m.storage.insert(call.args[1], credit as u64)
            }
        }),
{
    reveal_with_fuel(machine::Machine::run, 9);
}

/// A successful token transfer moves balance and creates or destroys none.
pub proof fn law_token_conserves_supply(storage: Map<u64, u64>, call: CallView, gas_limit: u64)
    requires
        storage.dom().finite(),
        gas_limit >= TRANSFER_GAS,
        call.args.len() >= 3,
        call.args[0] == token::TRANSFER,
        machine::call_end(token_code(), storage, call, gas_limit).result is Ok,
    ensures
        sums::total(machine::call_end(token_code(), storage, call, gas_limit).storage)
            == sums::total(storage),
{
    law_token_transfer(storage, call, gas_limit);
    let from = call.caller;
    let to = call.args[1];
    let amount = call.args[2];
    let left = (machine::slot(storage, from) - amount) as u64;
    let debited = storage.insert(from, left);
    sums::lemma_total_insert(storage, from, left);
    sums::lemma_total_insert(debited, to, (machine::slot(debited, to) + amount) as u64);
}

} // verus!
