//! A deployed contract: code plus persistent storage, with atomic calls.

use std::collections::BTreeMap;
use vstd::prelude::*;

use crate::bytes;
use crate::hash;
use crate::text;
use crate::vm::instr::Instr;
use crate::vm::machine;
use crate::vm::machine::{CallContext, Outcome, Trap};

verus! {

/// A contract instance: immutable `code` and mutable `storage`.
#[derive(Debug, PartialEq, Eq)]
pub struct Contract {
    pub code: Vec<Instr>,
    pub storage: BTreeMap<u64, u64>,
}

impl Clone for Contract {
    fn clone(&self) -> (c: Contract)
        ensures
            c.code@ == self.code@,
            c.storage@ == self.storage@,
    {
        let code = self.code.clone();
        assert(code@ =~= self.code@);
        Contract { code, storage: self.storage.clone() }
    }
}

/// The byte encoding of one instruction: a tag and its operand.
pub open spec fn instr_bytes(instr: Instr) -> Seq<u8> {
    match instr {
        Instr::Push(v) => seq![0x01u8] + bytes::le64(v),
        Instr::Pop => seq![0x02u8],
        Instr::Dup => seq![0x03u8],
        Instr::Swap => seq![0x04u8],
        Instr::Add => seq![0x10u8],
        Instr::Sub => seq![0x11u8],
        Instr::Mul => seq![0x12u8],
        Instr::Div => seq![0x13u8],
        Instr::Mod => seq![0x14u8],
        Instr::Eq => seq![0x20u8],
        Instr::Lt => seq![0x21u8],
        Instr::Gt => seq![0x22u8],
        Instr::And => seq![0x23u8],
        Instr::Or => seq![0x24u8],
        Instr::Not => seq![0x25u8],
        Instr::Jump(t) => seq![0x30u8] + bytes::le64(t as u64),
        Instr::JumpIf(t) => seq![0x31u8] + bytes::le64(t as u64),
        Instr::Arg(i) => seq![0x40u8] + bytes::le64(i as u64),
        Instr::Caller => seq![0x41u8],
        Instr::Value => seq![0x42u8],
        Instr::SLoad => seq![0x50u8],
        Instr::SStore => seq![0x51u8],
        Instr::Return => seq![0x60u8],
        Instr::Halt => seq![0x61u8],
        Instr::Abort => seq![0x62u8],
    }
}

/// The instructions of a program, encoded one after the other.
pub open spec fn code_bytes(code: Seq<Instr>) -> Seq<u8>
    decreases code.len(),
{
    if code.len() == 0 {
        Seq::empty()
    } else {
        instr_bytes(code[0]) + code_bytes(code.drop_first())
    }
}

/// What is hashed for the content hash of a program.
pub open spec fn code_input(code: Seq<Instr>) -> Seq<u8> {
    hash::tagged_preimage(text::utf8("phi:vm:code"@), seq![code_bytes(code)])
}

/// The content hash of a program.
pub open spec fn code_hash_of(code: Seq<Instr>) -> hash::Hash {
    hash::tagged(text::utf8("phi:vm:code"@), seq![code_bytes(code)])
}

impl Contract {
    /// A fresh contract with empty storage.
    pub fn new(code: Vec<Instr>) -> (c: Contract)
        ensures
            c.code == code,
            c.storage@ == Map::<u64, u64>::empty(),
    {
        Contract { code, storage: BTreeMap::new() }
    }

    /// Content hash of the code: a deterministic contract-class identity the
    /// integration layer can use as (part of) a contract address.
    pub fn code_hash(&self) -> (h: hash::Hash)
        ensures
            h == code_hash_of(self.code@),
    {
        let mut out: Vec<u8> = Vec::new();
        let mut i: usize = 0;
        assert(self.code@.skip(0) =~= self.code@);
        assert(out@ + code_bytes(self.code@.skip(0)) =~= code_bytes(self.code@));
        while i < self.code.len()
            invariant
                i <= self.code@.len(),
                out@ + code_bytes(self.code@.skip(i as int)) == code_bytes(self.code@),
            decreases self.code@.len() - i,
        {
            let ghost before = out@;
            encode_instr(&self.code[i], &mut out);
            proof {
                let rest = self.code@.skip(i as int);
                assert(rest.drop_first() =~= self.code@.skip(i + 1));
                assert(out@ + code_bytes(self.code@.skip(i + 1)) =~= before + code_bytes(rest));
            }
            i += 1;
        }
        assert(out@ + code_bytes(self.code@.skip(i as int)) =~= out@);
        let parts: [&[u8]; 1] = [out.as_slice()];
        let h = hash::Hash::of_tagged("phi:vm:code".as_bytes(), &parts);
        assert(hash::part_views(parts@) =~= seq![code_bytes(self.code@)]);
        h
    }

    /// Execute a call **atomically**: if it traps, all storage writes are
    /// reverted, exactly as if the call never ran. On success the storage
    /// mutations persist and the outcome is returned.
    pub fn call(&mut self, ctx: &CallContext, gas_limit: u64) -> (result: Result<Outcome, Trap>)
        ensures
            final(self).code == old(self).code,
            result == machine::call_end(
                old(self).code@,
                old(self).storage@,
                ctx@,
                gas_limit,
            ).result,
            result is Ok ==> final(self).storage@ == machine::call_end(
                old(self).code@,
                old(self).storage@,
                ctx@,
                gas_limit,
            ).storage,
            result is Err ==> final(self).storage@ == old(self).storage@,
            result matches Ok(outcome) ==> outcome.gas_used <= gas_limit,
    {
        let snapshot = self.storage.clone();
        match machine::execute(self.code.as_slice(), &mut self.storage, ctx, gas_limit) {
            Ok(outcome) => Ok(outcome),
            Err(trap) => {
                self.storage = snapshot;
                Err(trap)
            },
        }
    }
}

/// Appends a tag and a 64-bit operand.
fn push_operand(out: &mut Vec<u8>, tag: u8, operand: u64)
    ensures
        final(out)@ == old(out)@ + (seq![tag] + bytes::le64(operand)),
{
    out.push(tag);
    bytes::push_u64(out, operand);
    assert(out@ =~= old(out)@ + (seq![tag] + bytes::le64(operand)));
}

/// Deterministic byte encoding of one instruction (tag + operands), for the
/// code hash. Distinct opcodes get distinct tags, and operands are
/// little-endian, so the encoding is injective (see [`law_code_bytes_injective`]).
fn encode_instr(instr: &Instr, out: &mut Vec<u8>)
    ensures
        final(out)@ == old(out)@ + instr_bytes(*instr),
{
    match instr {
        Instr::Push(v) => push_operand(out, 0x01, *v),
        Instr::Pop => out.push(0x02),
        Instr::Dup => out.push(0x03),
        Instr::Swap => out.push(0x04),
        Instr::Add => out.push(0x10),
        Instr::Sub => out.push(0x11),
        Instr::Mul => out.push(0x12),
        Instr::Div => out.push(0x13),
        Instr::Mod => out.push(0x14),
        Instr::Eq => out.push(0x20),
        Instr::Lt => out.push(0x21),
        Instr::Gt => out.push(0x22),
        Instr::And => out.push(0x23),
        Instr::Or => out.push(0x24),
        Instr::Not => out.push(0x25),
        Instr::Jump(t) => push_operand(out, 0x30, *t as u64),
        Instr::JumpIf(t) => push_operand(out, 0x31, *t as u64),
        Instr::Arg(i) => push_operand(out, 0x40, *i as u64),
        Instr::Caller => out.push(0x41),
        Instr::Value => out.push(0x42),
        Instr::SLoad => out.push(0x50),
        Instr::SStore => out.push(0x51),
        Instr::Return => out.push(0x60),
        Instr::Halt => out.push(0x61),
        Instr::Abort => out.push(0x62),
    }
    assert(out@ =~= old(out)@ + instr_bytes(*instr));
}

proof fn lemma_instr_cancel(a: Instr, x: Seq<u8>, b: Instr, y: Seq<u8>)
    requires
        instr_bytes(a) + x == instr_bytes(b) + y,
    ensures
        a == b,
        x == y,
{
    broadcast use bytes::lemma_le_bytes_len;

    let u = instr_bytes(a);
    let v = instr_bytes(b);
    assert(u[0] == (u + x)[0]);
    assert(v[0] == (v + y)[0]);
    assert(u.len() == v.len());
    bytes::lemma_concat_cancel(u, x, v, y);
    if u.len() == 9 {
        let p = match a {
            Instr::Push(v) => v,
            Instr::Jump(t) => t as u64,
            Instr::JumpIf(t) => t as u64,
            Instr::Arg(i) => i as u64,
            _ => 0,
        };
        let q = match b {
            Instr::Push(v) => v,
            Instr::Jump(t) => t as u64,
            Instr::JumpIf(t) => t as u64,
            Instr::Arg(i) => i as u64,
            _ => 0,
        };
        assert(u =~= seq![u[0]] + bytes::le64(p));
        assert(v =~= seq![v[0]] + bytes::le64(q));
        bytes::lemma_concat_cancel(seq![u[0]], bytes::le64(p), seq![v[0]], bytes::le64(q));
        bytes::lemma_le64_injective(p, q);
    }
}

/// Different programs have different encodings.
pub proof fn law_code_bytes_injective(a: Seq<Instr>, b: Seq<Instr>)
    requires
        code_bytes(a) == code_bytes(b),
    ensures
        a == b,
    decreases a.len(),
{
    broadcast use bytes::lemma_le_bytes_len;

    if a.len() == 0 {
        if b.len() > 0 {
            assert(instr_bytes(b[0]).len() >= 1);
        }
        assert(a =~= b);
    } else {
        assert(instr_bytes(a[0]).len() >= 1);
        assert(b.len() > 0);
        lemma_instr_cancel(a[0], code_bytes(a.drop_first()), b[0], code_bytes(b.drop_first()));
        law_code_bytes_injective(a.drop_first(), b.drop_first());
        assert(a =~= seq![a[0]] + a.drop_first());
        assert(b =~= seq![b[0]] + b.drop_first());
    }
}

/// A code hash stands for one program, unless the hash inputs collide.
pub proof fn law_code_hash_binds(a: Seq<Instr>, b: Seq<Instr>)
    requires
        code_hash_of(a) == code_hash_of(b),
    ensures
        a == b || hash::collide(code_input(a), code_input(b)),
{
    hash::law_lone_part_binds(text::utf8("phi:vm:code"@), code_bytes(a), code_bytes(b));
    if !hash::collide(code_input(a), code_input(b)) {
        law_code_bytes_injective(a, b);
    }
}

} // verus!
