//! What the virtual machine promises of every program, on concrete ones.

use std::collections::BTreeMap;

use phi::vm::assembler::{assemble, Op};
use phi::vm::contract::Contract;
use phi::vm::examples::{
    counter, token_contract, BALANCE_OF_GAS, COUNTER_GAS, COUNTER_SLOT, TRANSFER_GAS,
};
use phi::vm::instr::Instr;
use phi::vm::machine::{execute, CallContext, Outcome, Trap, MAX_STACK};
use phi::vm::token;

fn run(code: &[Instr], gas: u64) -> Result<Outcome, Trap> {
    execute(code, &mut BTreeMap::new(), &CallContext::default(), gas)
}

fn call(caller: u64, args: &[u64]) -> CallContext {
    CallContext { caller, value: 0, args: args.to_vec() }
}

#[test]
fn gas_costs_by_instruction() {
    assert_eq!(Instr::SStore.gas_cost(), 100);
    assert_eq!(Instr::SLoad.gas_cost(), 20);
    for dear in [Instr::Mul, Instr::Div, Instr::Mod] {
        assert_eq!(dear.gas_cost(), 5);
    }
    for cheap in [Instr::Push(1), Instr::Add, Instr::Jump(0), Instr::Return, Instr::Abort] {
        assert_eq!(cheap.gas_cost(), 1);
    }
}

#[test]
fn every_operator_computes() {
    let cases = [
        (Instr::Add, 7, 3, 10),
        (Instr::Sub, 7, 3, 4),
        (Instr::Mul, 7, 3, 21),
        (Instr::Div, 7, 3, 2),
        (Instr::Mod, 7, 3, 1),
        (Instr::Eq, 7, 3, 0),
        (Instr::Eq, 3, 3, 1),
        (Instr::Lt, 3, 7, 1),
        (Instr::Lt, 7, 3, 0),
        (Instr::Gt, 7, 3, 1),
        (Instr::Gt, 3, 3, 0),
        (Instr::And, 6, 3, 1),
        (Instr::And, 6, 0, 0),
        (Instr::Or, 0, 3, 1),
        (Instr::Or, 0, 0, 0),
    ];
    for (op, a, b, expected) in cases {
        let code = [Instr::Push(a), Instr::Push(b), op, Instr::Return];
        assert_eq!(run(&code, 100).unwrap().return_value, Some(expected), "{op:?} {a} {b}");
    }
    for (a, expected) in [(0, 1), (5, 0)] {
        let code = [Instr::Push(a), Instr::Not, Instr::Return];
        assert_eq!(run(&code, 100).unwrap().return_value, Some(expected), "not {a}");
    }
}

#[test]
fn every_trap_has_a_program() {
    assert_eq!(run(&[Instr::Push(1)], 0), Err(Trap::OutOfGas));
    assert_eq!(run(&[Instr::Pop], 10), Err(Trap::StackUnderflow));
    assert_eq!(run(&vec![Instr::Push(0); MAX_STACK + 1], 5_000), Err(Trap::StackOverflow));
    assert!(run(&vec![Instr::Push(0); MAX_STACK], 5_000).is_ok());
    for op in [Instr::Div, Instr::Mod] {
        assert_eq!(run(&[Instr::Push(1), Instr::Push(0), op], 50), Err(Trap::DivByZero));
    }
    assert_eq!(
        run(&[Instr::Push(u64::MAX), Instr::Push(1), Instr::Add], 50),
        Err(Trap::Overflow)
    );
    assert_eq!(run(&[Instr::Push(0), Instr::Push(1), Instr::Sub], 50), Err(Trap::Overflow));
    assert_eq!(
        run(&[Instr::Push(u64::MAX), Instr::Push(2), Instr::Mul], 50),
        Err(Trap::Overflow)
    );
    assert_eq!(run(&[Instr::Jump(9)], 50), Err(Trap::InvalidJump));
    assert_eq!(run(&[Instr::Arg(0)], 50), Err(Trap::BadArg));
    assert_eq!(run(&[Instr::Abort], 50), Err(Trap::Aborted));
}

#[test]
fn running_off_the_end_halts_without_a_value() {
    assert_eq!(run(&[], 0), Ok(Outcome { return_value: None, gas_used: 0 }));
    assert_eq!(run(&[Instr::Push(3)], 5), Ok(Outcome { return_value: None, gas_used: 1 }));
    assert_eq!(run(&[Instr::Halt, Instr::Abort], 5), Ok(Outcome { return_value: None, gas_used: 1 }));
}

#[test]
fn spare_gas_changes_nothing() {
    for gas in [COUNTER_GAS, COUNTER_GAS + 1, 10 * COUNTER_GAS, u64::MAX] {
        let mut c = Contract::new(counter());
        let outcome = c.call(&CallContext::default(), gas).unwrap();
        assert_eq!(outcome.gas_used, COUNTER_GAS);
        assert_eq!(c.storage.get(&COUNTER_SLOT), Some(&1));
    }
    let mut c = Contract::new(counter());
    assert_eq!(c.call(&CallContext::default(), COUNTER_GAS - 1), Err(Trap::OutOfGas));
    assert!(c.storage.is_empty());
}

#[test]
fn the_counter_counts_and_refuses_to_wrap() {
    let mut c = Contract::new(counter());
    for n in 1..5 {
        assert_eq!(
            c.call(&CallContext::default(), COUNTER_GAS),
            Ok(Outcome { return_value: Some(n), gas_used: COUNTER_GAS })
        );
    }
    c.storage.insert(COUNTER_SLOT, u64::MAX);
    assert_eq!(c.call(&CallContext::default(), 1_000), Err(Trap::Overflow));
    assert_eq!(c.storage.get(&COUNTER_SLOT), Some(&u64::MAX));
}

#[test]
fn the_token_moves_exactly_what_it_is_told() {
    let mut c = Contract::new(token_contract());
    c.storage.insert(1, 100);
    assert_eq!(
        c.call(&call(1, &[token::TRANSFER, 2, 30]), 1_000),
        Ok(Outcome { return_value: Some(1), gas_used: TRANSFER_GAS })
    );
    assert_eq!((c.storage[&1], c.storage[&2]), (70, 30));
    assert_eq!(
        c.call(&call(9, &[token::BALANCE_OF, 2]), 1_000),
        Ok(Outcome { return_value: Some(30), gas_used: BALANCE_OF_GAS })
    );
    // Too much, or from an empty account: nothing moves.
    assert!(c.call(&call(1, &[token::TRANSFER, 2, 71]), 1_000).is_err());
    assert!(c.call(&call(5, &[token::TRANSFER, 2, 1]), 1_000).is_err());
    // To oneself: nothing is created.
    assert!(c.call(&call(1, &[token::TRANSFER, 1, 70]), 1_000).is_ok());
    assert_eq!(c.storage.values().sum::<u64>(), 100);
}

#[test]
fn labels_resolve_to_where_they_stand() {
    let code = assemble(&[
        Op::Label(7),
        Op::I(Instr::Push(1)),
        Op::JumpIf(8),
        Op::Jump(7),
        Op::Label(8),
        Op::I(Instr::Halt),
    ])
    .unwrap();
    assert_eq!(
        code,
        vec![Instr::Push(1), Instr::JumpIf(3), Instr::Jump(0), Instr::Halt]
    );
    assert_eq!(run(&code, 100).unwrap().gas_used, 3);
}

#[test]
fn code_hashes_tell_programs_apart() {
    let programs = [
        vec![],
        vec![Instr::Push(1)],
        vec![Instr::Push(2)],
        vec![Instr::Jump(1)],
        vec![Instr::JumpIf(1)],
        vec![Instr::Arg(1)],
        vec![Instr::Pop],
        vec![Instr::Dup],
        vec![Instr::Push(1), Instr::Pop],
        counter(),
        token_contract(),
    ];
    let hashes: Vec<phi::hash::Hash> =
        programs.iter().map(|p| Contract::new(p.clone()).code_hash()).collect();
    for i in 0..hashes.len() {
        for j in 0..i {
            assert_ne!(hashes[i], hashes[j], "{i} and {j}");
        }
    }
}

#[test]
fn less_gas_than_a_run_uses_runs_out() {
    let code = [Instr::Push(2), Instr::Push(3), Instr::Mul, Instr::Return];
    let used = run(&code, u64::MAX).unwrap().gas_used;
    assert_eq!(run(&code, used), Ok(Outcome { return_value: Some(6), gas_used: used }));
    for gas in 0..used {
        assert_eq!(run(&code, gas), Err(Trap::OutOfGas));
    }
    for gas in 0..COUNTER_GAS {
        let mut c = Contract::new(counter());
        assert_eq!(c.call(&CallContext::default(), gas), Err(Trap::OutOfGas));
        assert!(c.storage.is_empty());
    }
}
