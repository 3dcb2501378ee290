//! The virtual machine, its assembler and the sample contracts.

use std::collections::BTreeMap;

use phi::vm::assembler::{assemble, AsmError, Op};
use phi::vm::contract::Contract;
use phi::vm::examples::{counter, token_contract, COUNTER_SLOT};
use phi::vm::instr::Instr;
use phi::vm::machine::{execute, CallContext, Outcome, Trap};
use phi::vm::token;

#[test]
fn resolves_forward_and_backward_labels() {
    // Jump forward over a Push, land on a label.
    let code = assemble(&[
        Op::Jump(1),
        Op::I(Instr::Push(99)),
        Op::Label(1),
        Op::I(Instr::Push(7)),
        Op::I(Instr::Return),
    ])
    .unwrap();
    // Emitted: [Jump, Push(99), Push(7), Return]. Label(1) is at index 2.
    assert_eq!(
        code,
        vec![
            Instr::Jump(2),
            Instr::Push(99),
            Instr::Push(7),
            Instr::Return,
        ]
    );
}

#[test]
fn undefined_and_duplicate_labels_error() {
    assert_eq!(assemble(&[Op::Jump(5)]), Err(AsmError::UndefinedLabel(5)));
    assert_eq!(
        assemble(&[Op::Label(1), Op::Label(1)]),
        Err(AsmError::DuplicateLabel(1))
    );
}

#[test]
fn trap_reverts_storage() {
    // Write storage[1]=5, then Abort. The write must not persist.
    let code = vec![Instr::Push(1), Instr::Push(5), Instr::SStore, Instr::Abort];
    let mut c = Contract::new(code);
    assert_eq!(c.call(&CallContext::default(), 1000), Err(Trap::Aborted));
    assert!(c.storage.is_empty(), "aborted call must revert writes");
}

#[test]
fn success_persists_storage() {
    let code = vec![Instr::Push(1), Instr::Push(5), Instr::SStore, Instr::Halt];
    let mut c = Contract::new(code);
    assert!(c.call(&CallContext::default(), 1000).is_ok());
    assert_eq!(c.storage.get(&1), Some(&5));
}

#[test]
fn code_hash_is_stable_and_distinguishes_code() {
    let a = Contract::new(vec![Instr::Push(1), Instr::Return]);
    let b = Contract::new(vec![Instr::Push(2), Instr::Return]);
    assert_eq!(
        a.code_hash(),
        Contract::new(vec![Instr::Push(1), Instr::Return]).code_hash()
    );
    assert_ne!(a.code_hash(), b.code_hash());
}

#[test]
fn counter_increments_across_calls() {
    let mut c = Contract::new(counter());
    let gas = 10_000;
    assert_eq!(
        c.call(&CallContext::default(), gas).unwrap().return_value,
        Some(1)
    );
    assert_eq!(
        c.call(&CallContext::default(), gas).unwrap().return_value,
        Some(2)
    );
    assert_eq!(
        c.call(&CallContext::default(), gas).unwrap().return_value,
        Some(3)
    );
    assert_eq!(c.storage.get(&COUNTER_SLOT), Some(&3));
}

#[test]
fn token_transfer_moves_balance_and_checks_funds() {
    let mut tok = Contract::new(token_contract());
    let alice = 0xA11CE;
    let bob = 0xB0B;
    let gas = 10_000;

    // Seed alice with 100 by writing storage directly (a mint host call
    // would do this in the integrated version).
    tok.storage.insert(alice, 100);

    // balanceOf(alice) == 100
    let bal = tok
        .call(
            &CallContext {
                caller: alice,
                args: vec![token::BALANCE_OF, alice],
                ..Default::default()
            },
            gas,
        )
        .unwrap();
    assert_eq!(bal.return_value, Some(100));

    // alice transfers 30 to bob
    let ok = tok
        .call(
            &CallContext {
                caller: alice,
                args: vec![token::TRANSFER, bob, 30],
                ..Default::default()
            },
            gas,
        )
        .unwrap();
    assert_eq!(ok.return_value, Some(1));
    assert_eq!(tok.storage.get(&alice), Some(&70));
    assert_eq!(tok.storage.get(&bob), Some(&30));

    // overspend: alice tries to send 1000, reverts atomically
    let snapshot = tok.storage.clone();
    let fail = tok.call(
        &CallContext {
            caller: alice,
            args: vec![token::TRANSFER, bob, 1000],
            ..Default::default()
        },
        gas,
    );
    assert_eq!(fail, Err(Trap::Aborted));
    assert_eq!(
        tok.storage, snapshot,
        "failed transfer must not change balances"
    );
}

#[test]
fn token_conserves_supply_under_transfers() {
    let mut tok = Contract::new(token_contract());
    let (a, b, c) = (1u64, 2u64, 3u64);
    tok.storage.insert(a, 1_000);
    let gas = 10_000;
    let supply = |t: &Contract| t.storage.values().sum::<u64>();
    let before = supply(&tok);

    for (caller, to, amt) in [(a, b, 400u64), (b, c, 150), (c, a, 50)] {
        tok.call(
            &CallContext {
                caller,
                args: vec![token::TRANSFER, to, amt],
                ..Default::default()
            },
            gas,
        )
        .unwrap();
    }
    assert_eq!(supply(&tok), before, "transfers conserve token supply");
}

#[test]
fn gas_limit_bounds_execution_deterministically() {
    let mut c = Contract::new(counter());
    // Too little gas to finish: traps OutOfGas, and the storage write is
    // reverted (atomic), so the counter does not advance.
    assert_eq!(c.call(&CallContext::default(), 3), Err(Trap::OutOfGas));
    assert!(c.storage.is_empty());
}

fn run(code: &[Instr], gas: u64) -> Result<Outcome, Trap> {
    execute(code, &mut BTreeMap::new(), &CallContext::default(), gas)
}

#[test]
fn arithmetic_and_return() {
    // (2 + 3) * 4 = 20
    let code = vec![
        Instr::Push(2),
        Instr::Push(3),
        Instr::Add,
        Instr::Push(4),
        Instr::Mul,
        Instr::Return,
    ];
    assert_eq!(run(&code, 1000).unwrap().return_value, Some(20));
}

#[test]
fn out_of_gas_halts_infinite_loop() {
    // Jump(0) forever — gas is the termination guarantee.
    let code = vec![Instr::Jump(0)];
    assert_eq!(run(&code, 1000), Err(Trap::OutOfGas));
}

#[test]
fn checked_arithmetic_traps() {
    assert_eq!(
        run(&[Instr::Push(1), Instr::Push(0), Instr::Div], 100),
        Err(Trap::DivByZero)
    );
    assert_eq!(
        run(&[Instr::Push(u64::MAX), Instr::Push(1), Instr::Add], 100),
        Err(Trap::Overflow)
    );
    assert_eq!(
        run(&[Instr::Push(0), Instr::Push(1), Instr::Sub], 100),
        Err(Trap::Overflow)
    );
}

#[test]
fn stack_underflow_and_overflow_trap() {
    assert_eq!(run(&[Instr::Add], 100), Err(Trap::StackUnderflow));
    // Dup forever overflows the stack before anything else.
    let code = vec![Instr::Push(1), Instr::Dup, Instr::Jump(1)];
    assert_eq!(run(&code, 1_000_000), Err(Trap::StackOverflow));
}

#[test]
fn invalid_jump_traps() {
    assert_eq!(run(&[Instr::Jump(99)], 100), Err(Trap::InvalidJump));
}

#[test]
fn storage_round_trips() {
    let mut storage = BTreeMap::new();
    // storage[7] = 42
    let store = vec![Instr::Push(7), Instr::Push(42), Instr::SStore, Instr::Halt];
    execute(&store, &mut storage, &CallContext::default(), 1000).unwrap();
    assert_eq!(storage.get(&7), Some(&42));
    // load it back
    let load = vec![Instr::Push(7), Instr::SLoad, Instr::Return];
    let out = execute(&load, &mut storage, &CallContext::default(), 1000).unwrap();
    assert_eq!(out.return_value, Some(42));
}

#[test]
fn conditional_branch() {
    // if arg0 != 0 { return 111 } else { return 222 }
    let code = vec![
        Instr::Arg(0),    // 0
        Instr::JumpIf(4), // 1 -> to 4 if true
        Instr::Push(222), // 2
        Instr::Return,    // 3
        Instr::Push(111), // 4
        Instr::Return,    // 5
    ];
    let truthy = execute(
        &code,
        &mut BTreeMap::new(),
        &CallContext {
            args: vec![1],
            ..Default::default()
        },
        100,
    )
    .unwrap();
    assert_eq!(truthy.return_value, Some(111));
    let falsy = execute(
        &code,
        &mut BTreeMap::new(),
        &CallContext {
            args: vec![0],
            ..Default::default()
        },
        100,
    )
    .unwrap();
    assert_eq!(falsy.return_value, Some(222));
}

#[test]
fn bad_arg_traps() {
    assert_eq!(
        execute(
            &[Instr::Arg(5)],
            &mut BTreeMap::new(),
            &CallContext::default(),
            100
        ),
        Err(Trap::BadArg)
    );
}

#[test]
fn gas_used_is_reported_and_deterministic() {
    let code = vec![Instr::Push(1), Instr::Push(2), Instr::Add, Instr::Return];
    let a = run(&code, 100).unwrap();
    let b = run(&code, 100).unwrap();
    assert_eq!(a, b);
    assert_eq!(a.gas_used, 4); // 3 pushes/add at 1 each + return
}
