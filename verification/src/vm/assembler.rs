//! A tiny label-resolving assembler, so contracts can be written with named
//! jump targets instead of hand-counted instruction indices.

use std::collections::BTreeMap;
use vstd::prelude::*;

use crate::vm::instr::Instr;

verus! {

/// An assembler operation: either a literal instruction, a label definition,
/// or a jump to a label (resolved to an absolute index by [`assemble`]).
#[derive(Clone, Copy, Debug)]
pub enum Op {
    /// A literal instruction. Use [`Op::Jump`]/[`Op::JumpIf`] for control flow
    /// rather than `Instr::Jump`/`Instr::JumpIf` directly.
    I(Instr),
    /// Define label `id` at the current position (emits no instruction).
    Label(u32),
    /// Unconditional jump to label `id`.
    Jump(u32),
    /// Conditional jump to label `id` (pops a condition).
    JumpIf(u32),
}

/// Assembly errors.
#[derive(Clone, Copy, Debug, PartialEq, Eq, Structural)]
pub enum AsmError {
    DuplicateLabel(u32),
    UndefinedLabel(u32),
}

/// Whether label `id` is defined among `ops`.
pub open spec fn defines(ops: Seq<Op>, id: u32) -> bool {
    exists|i: int| 0 <= i < ops.len() && #[trigger] ops[i] == Op::Label(id)
}

/// How many instructions `ops` emit: a label emits none.
pub open spec fn emitted(ops: Seq<Op>) -> nat
    decreases ops.len(),
{
    if ops.len() == 0 {
        0
    } else {
        emitted(ops.drop_last()) + if ops.last() is Label {
            0nat
        } else {
            1nat
        }
    }
}

/// The index of the instruction that follows the definition of label `id`.
pub open spec fn target(ops: Seq<Op>, id: u32) -> nat
    decreases ops.len(),
{
    if ops.len() == 0 {
        0
    } else if ops.last() == Op::Label(id) {
        emitted(ops.drop_last())
    } else {
        target(ops.drop_last(), id)
    }
}

/// The first label that is defined a second time.
pub open spec fn first_duplicate(ops: Seq<Op>) -> Option<u32>
    decreases ops.len(),
{
    if ops.len() == 0 {
        None
    } else {
        match (first_duplicate(ops.drop_last()), ops.last()) {
            (Some(id), _) => Some(id),
            (None, Op::Label(id)) => if defines(ops.drop_last(), id) {
                Some(id)
            } else {
                None
            },
            (None, _) => None,
        }
    }
}

/// The first jump among `ops` whose label `all` does not define.
pub open spec fn first_undefined(ops: Seq<Op>, all: Seq<Op>) -> Option<u32>
    decreases ops.len(),
{
    if ops.len() == 0 {
        None
    } else {
        match (first_undefined(ops.drop_last(), all), ops.last()) {
            (Some(id), _) => Some(id),
            (None, Op::Jump(id)) => if defines(all, id) {
                None
            } else {
                Some(id)
            },
            (None, Op::JumpIf(id)) => if defines(all, id) {
                None
            } else {
                Some(id)
            },
            (None, _) => None,
        }
    }
}

/// The instructions that `ops` emit, with jumps resolved against `all`.
pub open spec fn emit(ops: Seq<Op>, all: Seq<Op>) -> Seq<Instr>
    decreases ops.len(),
{
    if ops.len() == 0 {
        Seq::empty()
    } else {
        let before = emit(ops.drop_last(), all);
        match ops.last() {
            Op::I(instr) => before.push(instr),
            Op::Label(_) => before,
            Op::Jump(id) => before.push(Instr::Jump(target(all, id) as usize)),
            Op::JumpIf(id) => before.push(Instr::JumpIf(target(all, id) as usize)),
        }
    }
}

/// What assembling `ops` gives: a label defined twice is reported before a
/// jump to nowhere, and of each kind of error the first.
pub open spec fn assembled(ops: Seq<Op>) -> Result<Seq<Instr>, AsmError> {
    match first_duplicate(ops) {
        Some(id) => Err(AsmError::DuplicateLabel(id)),
        None => match first_undefined(ops, ops) {
            Some(id) => Err(AsmError::UndefinedLabel(id)),
            None => Ok(emit(ops, ops)),
        },
    }
}

proof fn lemma_first_duplicate_prefix(ops: Seq<Op>, i: int)
    requires
        0 <= i <= ops.len(),
        first_duplicate(ops.take(i)) is Some,
    ensures
        first_duplicate(ops) == first_duplicate(ops.take(i)),
    decreases ops.len() - i,
{
    if i < ops.len() {
        assert(ops.take(i + 1).drop_last() =~= ops.take(i));
        lemma_first_duplicate_prefix(ops, i + 1);
    } else {
        assert(ops.take(i) =~= ops);
    }
}

proof fn lemma_first_undefined_prefix(ops: Seq<Op>, all: Seq<Op>, i: int)
    requires
        0 <= i <= ops.len(),
        first_undefined(ops.take(i), all) is Some,
    ensures
        first_undefined(ops, all) == first_undefined(ops.take(i), all),
    decreases ops.len() - i,
{
    if i < ops.len() {
        assert(ops.take(i + 1).drop_last() =~= ops.take(i));
        lemma_first_undefined_prefix(ops, all, i + 1);
    } else {
        assert(ops.take(i) =~= ops);
    }
}

/// What one more operation adds to a prefix.
pub proof fn lemma_prefix_grows(ops: Seq<Op>, all: Seq<Op>, i: int)
    requires
        0 <= i < ops.len(),
    ensures
        emitted(ops.take(i + 1)) == emitted(ops.take(i)) + if ops[i] is Label {
            0nat
        } else {
            1nat
        },
        emit(ops.take(i + 1), all) == match ops[i] {
            Op::I(instr) => emit(ops.take(i), all).push(instr),
            Op::Label(_) => emit(ops.take(i), all),
            Op::Jump(id) => emit(ops.take(i), all).push(Instr::Jump(target(all, id) as usize)),
            Op::JumpIf(id) => emit(ops.take(i), all).push(Instr::JumpIf(target(all, id) as usize)),
        },
        first_duplicate(ops.take(i)) is None ==> first_duplicate(ops.take(i + 1)) == match ops[i] {
            Op::Label(id) => if defines(ops.take(i), id) {
                Some(id)
            } else {
                None
            },
            _ => None,
        },
        first_undefined(ops.take(i), all) is None ==> first_undefined(ops.take(i + 1), all)
            == match ops[i] {
            Op::Jump(id) | Op::JumpIf(id) => if defines(all, id) {
                None
            } else {
                Some(id)
            },
            _ => None,
        },
        forall|id: u32| #[trigger]
            target(ops.take(i + 1), id) == if ops[i] == Op::Label(id) {
                emitted(ops.take(i))
            } else {
                target(ops.take(i), id)
            },
        forall|id: u32| #[trigger]
            defines(ops.take(i + 1), id) == (defines(ops.take(i), id) || ops[i] == Op::Label(id)),
{
    let p = ops.take(i);
    let q = ops.take(i + 1);
    assert(q.drop_last() =~= p);
    assert forall|id: u32| #[trigger] defines(q, id) == (defines(p, id) || ops[i] == Op::Label(id)) by {
        if defines(p, id) {
            let k = choose|k: int| 0 <= k < p.len() && #[trigger] p[k] == Op::Label(id);
            assert(q[k] == Op::Label(id));
        }
        if ops[i] == Op::Label(id) {
            assert(q[i] == Op::Label(id));
        }
        if defines(q, id) {
            let k = choose|k: int| 0 <= k < q.len() && #[trigger] q[k] == Op::Label(id);
            if k < i {
                assert(p[k] == Op::Label(id));
            }
        }
    }
}

/// A label that is defined once stands for its own position.
pub proof fn lemma_target_of_only_label(ops: Seq<Op>, at: int, id: u32)
    requires
        0 <= at < ops.len(),
        ops[at] == Op::Label(id),
        forall|j: int| at < j < ops.len() ==> #[trigger] ops[j] != Op::Label(id),
    ensures
        target(ops, id) == emitted(ops.take(at)),
        defines(ops, id),
    decreases ops.len(),
{
    if at == ops.len() - 1 {
        assert(ops.drop_last() =~= ops.take(at));
    } else {
        assert(ops.last() == ops[ops.len() - 1]);
        lemma_target_of_only_label(ops.drop_last(), at, id);
        assert(ops.drop_last().take(at) =~= ops.take(at));
    }
}

/// Labels that differ pairwise are no duplicates.
pub proof fn lemma_distinct_labels(ops: Seq<Op>)
    requires
        forall|i: int, j: int|
            0 <= i < j < ops.len() && #[trigger] ops[i] is Label && #[trigger] ops[j] is Label
                ==> ops[i] != ops[j],
    ensures
        first_duplicate(ops) is None,
    decreases ops.len(),
{
    if ops.len() > 0 {
        let rest = ops.drop_last();
        lemma_distinct_labels(rest);
        if let Op::Label(id) = ops.last() {
            if defines(rest, id) {
                let k = choose|k: int| 0 <= k < rest.len() && #[trigger] rest[k] == Op::Label(id);
                assert(ops[k] is Label && ops[ops.len() - 1] is Label);
            }
        }
    }
}

/// Jumps whose labels are all defined leave nothing undefined.
pub proof fn lemma_all_defined(ops: Seq<Op>, all: Seq<Op>)
    requires
        forall|i: int|
            #![trigger ops[i]]
            0 <= i < ops.len() ==> match ops[i] {
                Op::Jump(id) | Op::JumpIf(id) => defines(all, id),
                _ => true,
            },
    ensures
        first_undefined(ops, all) is None,
    decreases ops.len(),
{
    if ops.len() > 0 {
        assert(ops.last() == ops[ops.len() - 1]);
        lemma_all_defined(ops.drop_last(), all);
    }
}

/// The instruction that an operation other than a label emits.
pub open spec fn resolved(op: Op, all: Seq<Op>) -> Instr {
    match op {
        Op::I(instr) => instr,
        Op::Label(_) => Instr::Halt,
        Op::Jump(id) => Instr::Jump(target(all, id) as usize),
        Op::JumpIf(id) => Instr::JumpIf(target(all, id) as usize),
    }
}

/// A stretch without labels emits one instruction per operation.
pub proof fn lemma_emit_stretch(ops: Seq<Op>, all: Seq<Op>, from: int, to: int)
    requires
        0 <= from <= to <= ops.len(),
        forall|i: int| from <= i < to ==> !(#[trigger] ops[i] is Label),
    ensures
        emitted(ops.take(to)) == emitted(ops.take(from)) + (to - from),
        emit(ops.take(to), all) == emit(ops.take(from), all) + Seq::new(
            (to - from) as nat,
            |k: int| resolved(ops[from + k], all),
        ),
    decreases to - from,
{
    let f = |k: int| resolved(ops[from + k], all);
    if from < to {
        lemma_emit_stretch(ops, all, from, to - 1);
        lemma_prefix_grows(ops, all, to - 1);
        let before = Seq::new((to - 1 - from) as nat, f);
        assert(Seq::new((to - from) as nat, f) =~= before.push(resolved(ops[to - 1], all)));
        assert(emit(ops.take(to), all) =~= emit(ops.take(from), all) + before.push(
            resolved(ops[to - 1], all),
        ));
    } else {
        assert(emit(ops.take(to), all) =~= emit(ops.take(from), all) + Seq::new(0, f));
    }
}

/// Maps each label to the index of the next emitted instruction.
fn collect_labels(ops: &[Op]) -> (labels: Result<BTreeMap<u32, usize>, AsmError>)
    ensures
        match labels {
            Ok(at) => {
                &&& first_duplicate(ops@) is None
                &&& forall|id: u32| #[trigger]
                    at@.contains_key(id) <==> defines(ops@, id)
                &&& forall|id: u32| #[trigger]
                    at@.contains_key(id) ==> at@[id] == target(ops@, id)
            },
            Err(e) => first_duplicate(ops@) matches Some(id) && e == AsmError::DuplicateLabel(id),
        },
{
    let mut label_at: BTreeMap<u32, usize> = BTreeMap::new();
    let mut index: usize = 0;
    let mut i: usize = 0;
    while i < ops.len()
        invariant
            i <= ops@.len(),
            index <= i,
            index == emitted(ops@.take(i as int)),
            first_duplicate(ops@.take(i as int)) is None,
            forall|id: u32| #[trigger]
                label_at@.contains_key(id) <==> defines(ops@.take(i as int), id),
            forall|id: u32| #[trigger]
                label_at@.contains_key(id) ==> label_at@[id] == target(ops@.take(i as int), id),
        decreases ops@.len() - i,
    {
        proof {
            lemma_prefix_grows(ops@, ops@, i as int);
        }
        match ops[i] {
            Op::Label(id) => {
                if label_at.insert(id, index).is_some() {
                    proof {
                        lemma_first_duplicate_prefix(ops@, i + 1);
                    }
                    return Err(AsmError::DuplicateLabel(id));
                }
            },
            _ => {
                index += 1;
            },
        }
        i += 1;
    }
    assert(ops@.take(i as int) =~= ops@);
    Ok(label_at)
}

/// The resolved target of a jump to label `id`.
fn resolve(label_at: &BTreeMap<u32, usize>, id: u32) -> (r: Result<usize, AsmError>)
    ensures
        label_at@.contains_key(id) ==> r == Ok::<usize, AsmError>(label_at@[id]),
        !label_at@.contains_key(id) ==> r == Err::<usize, AsmError>(AsmError::UndefinedLabel(id)),
{
    match label_at.get(&id) {
        Some(t) => Ok(*t),
        None => Err(AsmError::UndefinedLabel(id)),
    }
}

/// Resolve labels and produce executable bytecode.
pub fn assemble(ops: &[Op]) -> (code: Result<Vec<Instr>, AsmError>)
    ensures
        match code {
            Ok(c) => assembled(ops@) == Ok::<Seq<Instr>, AsmError>(c@),
            Err(e) => assembled(ops@) == Err::<Seq<Instr>, AsmError>(e),
        },
{
    // First pass: map each label to the index of the next emitted instruction.
    let label_at = collect_labels(ops)?;
    // Second pass: emit, resolving jump targets.
    let mut code: Vec<Instr> = Vec::new();
    let mut i: usize = 0;
    while i < ops.len()
        invariant
            i <= ops@.len(),
            code@ == emit(ops@.take(i as int), ops@),
            first_duplicate(ops@) is None,
            first_undefined(ops@.take(i as int), ops@) is None,
            forall|id: u32| #[trigger] label_at@.contains_key(id) <==> defines(ops@, id),
            forall|id: u32| #[trigger]
                label_at@.contains_key(id) ==> label_at@[id] == target(ops@, id),
        decreases ops@.len() - i,
    {
        proof {
            lemma_prefix_grows(ops@, ops@, i as int);
            if first_undefined(ops@.take(i + 1), ops@) is Some {
                lemma_first_undefined_prefix(ops@, ops@, i + 1);
            }
        }
        match ops[i] {
            Op::I(instr) => code.push(instr),
            Op::Label(_) => {},
            Op::Jump(id) => {
                let t: usize = resolve(&label_at, id)?;
                code.push(Instr::Jump(t));
            },
            Op::JumpIf(id) => {
                let t: usize = resolve(&label_at, id)?;
                code.push(Instr::JumpIf(t));
            },
        }
        i += 1;
    }
    assert(ops@.take(i as int) =~= ops@);
    Ok(code)
}

proof fn lemma_emit_len(ops: Seq<Op>, all: Seq<Op>)
    ensures
        emit(ops, all).len() == emitted(ops),
    decreases ops.len(),
{
    if ops.len() > 0 {
        lemma_emit_len(ops.drop_last(), all);
    }
}

proof fn lemma_target_bound(ops: Seq<Op>, id: u32)
    ensures
        target(ops, id) <= emitted(ops),
    decreases ops.len(),
{
    if ops.len() > 0 {
        lemma_target_bound(ops.drop_last(), id);
    }
}

/// Assembled code holds one instruction per operation that is no label, and a
/// label's target never lies past the end of the code.
pub proof fn law_labels_resolve_within_code(ops: Seq<Op>, id: u32)
    requires
        assembled(ops) is Ok,
    ensures
        assembled(ops)->Ok_0.len() == emitted(ops),
        target(ops, id) <= assembled(ops)->Ok_0.len(),
{
    lemma_emit_len(ops, ops);
    lemma_target_bound(ops, id);
}

/// Labels take no room in the code; everything else takes one instruction.
pub proof fn law_labels_take_no_room(ops: Seq<Op>, op: Op)
    ensures
        emitted(Seq::empty()) == 0,
        op is Label ==> emitted(ops.push(op)) == emitted(ops),
        !(op is Label) ==> emitted(ops.push(op)) == emitted(ops) + 1,
{
    assert(ops.push(op).drop_last() =~= ops);
}

/// The room that the beginning of a program takes.
proof fn lemma_emitted_take(ops: Seq<Op>, i: int)
    requires
        0 <= i < ops.len(),
    ensures
        emitted(ops.take(i)) + (if ops[i] is Label {
            0nat
        } else {
            1nat
        }) == emitted(ops.take(i + 1)),
        emitted(ops.take(i + 1)) <= emitted(ops) <= ops.len(),
    decreases ops.len(),
{
    assert(ops.take(i + 1).drop_last() =~= ops.take(i));
    if i < ops.len() - 1 {
        let rest = ops.drop_last();
        lemma_emitted_take(rest, i);
        assert(rest.take(i) =~= ops.take(i));
        assert(rest.take(i + 1) =~= ops.take(i + 1));
    } else {
        assert(ops.take(i + 1) =~= ops);
        lemma_emitted_bound(ops);
    }
}

proof fn lemma_emitted_bound(ops: Seq<Op>)
    ensures
        emitted(ops) <= ops.len(),
    decreases ops.len(),
{
    if ops.len() > 0 {
        lemma_emitted_bound(ops.drop_last());
    }
}

/// Where a label that stands once leads.
proof fn lemma_target_at(ops: Seq<Op>, id: u32, l: int)
    requires
        0 <= l < ops.len(),
        ops[l] == Op::Label(id),
        forall|k: int| 0 <= k < ops.len() && k != l ==> #[trigger] ops[k] != Op::Label(id),
    ensures
        target(ops, id) == emitted(ops.take(l)),
    decreases ops.len(),
{
    let rest = ops.drop_last();
    if l == ops.len() - 1 {
        assert(rest =~= ops.take(l));
    } else {
        assert(ops[ops.len() - 1] != Op::Label(id));
        assert forall|k: int| 0 <= k < rest.len() && k != l implies #[trigger] rest[k]
            != Op::Label(id) by {
            assert(ops[k] != Op::Label(id));
        }
        assert(rest[l] == ops[l]);
        lemma_target_at(rest, id, l);
        assert(rest.take(l) =~= ops.take(l));
    }
}

/// What the position of an operation holds.
proof fn lemma_emit_at(ops: Seq<Op>, all: Seq<Op>, i: int)
    requires
        0 <= i < ops.len(),
        !(ops[i] is Label),
    ensures
        emit(ops, all).len() == emitted(ops),
        emitted(ops.take(i)) < emitted(ops),
        emit(ops, all)[emitted(ops.take(i)) as int] == resolved(ops[i], all),
    decreases ops.len(),
{
    let rest = ops.drop_last();
    lemma_emit_len(ops, all);
    lemma_emitted_take(ops, i);
    if i < ops.len() - 1 {
        lemma_emit_at(rest, all, i);
        assert(rest.take(i) =~= ops.take(i));
    } else {
        lemma_emit_len(rest, all);
        assert(rest =~= ops.take(i));
    }
}

/// No duplicate is found exactly if no label stands twice; one that is found
/// stands twice.
proof fn lemma_duplicates(ops: Seq<Op>)
    ensures
        match first_duplicate(ops) {
            None => forall|i: int, j: int|
                0 <= i < j < ops.len() && (#[trigger] ops[i]) is Label ==> ops[i]
                    != #[trigger] ops[j],
            Some(id) => exists|i: int, j: int|
                0 <= i < j < ops.len() && #[trigger] ops[i] == Op::Label(id) && #[trigger] ops[j]
                    == Op::Label(id),
        },
    decreases ops.len(),
{
    if ops.len() > 0 {
        let rest = ops.drop_last();
        let last = ops.len() - 1;
        lemma_duplicates(rest);
        match first_duplicate(ops) {
            None => {
                assert forall|i: int, j: int|
                    0 <= i < j < ops.len() && (#[trigger] ops[i]) is Label implies ops[i]
                    != #[trigger] ops[j] by {
                    assert(rest[i] == ops[i]);
                    if j < last {
                        assert(rest[j] == ops[j]);
                    } else if let Op::Label(id) = ops[j] {
                        assert(!defines(rest, id));
                    }
                }
            },
            Some(id) => {
                if first_duplicate(rest) is Some {
                    let (i, j) = choose|i: int, j: int|
                        0 <= i < j < rest.len() && #[trigger] rest[i] == Op::Label(id)
                            && #[trigger] rest[j] == Op::Label(id);
                    assert(ops[i] == Op::Label(id) && ops[j] == Op::Label(id));
                } else {
                    let i = choose|i: int| 0 <= i < rest.len() && #[trigger] rest[i] == Op::Label(id);
                    assert(ops[i] == Op::Label(id) && ops[last] == Op::Label(id));
                }
            },
        }
    }
}

proof fn lemma_undefined(ops: Seq<Op>, all: Seq<Op>)
    ensures
        match first_undefined(ops, all) {
            None => forall|i: int, id: u32|
                0 <= i < ops.len() && (#[trigger] ops[i] == Op::Jump(id) || ops[i] == Op::JumpIf(
                    id,
                )) ==> #[trigger] defines(all, id),
            Some(id) => !defines(all, id) && exists|i: int|
                0 <= i < ops.len() && (#[trigger] ops[i] == Op::Jump(id) || ops[i] == Op::JumpIf(
                    id,
                )),
        },
    decreases ops.len(),
{
    if ops.len() > 0 {
        let rest = ops.drop_last();
        let last = ops.len() - 1;
        lemma_undefined(rest, all);
        match first_undefined(ops, all) {
            None => {
                assert forall|i: int, id: u32|
                    0 <= i < ops.len() && (#[trigger] ops[i] == Op::Jump(id) || ops[i]
                        == Op::JumpIf(id)) implies #[trigger] defines(all, id) by {
                    if i < last {
                        assert(rest[i] == ops[i]);
                    }
                }
            },
            Some(id) => {
                if first_undefined(rest, all) is Some {
                    let i = choose|i: int|
                        0 <= i < rest.len() && (#[trigger] rest[i] == Op::Jump(id) || rest[i]
                            == Op::JumpIf(id));
                    assert(ops[i] == rest[i]);
                } else {
                    assert(ops[last] == Op::Jump(id) || ops[last] == Op::JumpIf(id));
                }
            },
        }
    }
}

/// A program assembles exactly if no label stands twice and every jump names a
/// label that is there. An error names a label that is at fault.
pub proof fn law_assembly_needs_unique_labels(ops: Seq<Op>)
    ensures
        assembled(ops) is Ok <==> {
            &&& forall|i: int, j: int|
                0 <= i < j < ops.len() && (#[trigger] ops[i]) is Label ==> ops[i]
                    != #[trigger] ops[j]
            &&& forall|i: int, id: u32|
                0 <= i < ops.len() && (#[trigger] ops[i] == Op::Jump(id) || ops[i] == Op::JumpIf(
                    id,
                )) ==> #[trigger] ops.contains(Op::Label(id))
        },
        assembled(ops) matches Err(AsmError::DuplicateLabel(id)) ==> exists|i: int, j: int|
            0 <= i < j < ops.len() && #[trigger] ops[i] == Op::Label(id) && #[trigger] ops[j]
                == Op::Label(id),
        assembled(ops) matches Err(AsmError::UndefinedLabel(id)) ==> !ops.contains(Op::Label(id))
            && exists|i: int|
            0 <= i < ops.len() && (#[trigger] ops[i] == Op::Jump(id) || ops[i] == Op::JumpIf(id)),
{
    lemma_duplicates(ops);
    lemma_undefined(ops, ops);
    assert forall|id: u32| #[trigger] defines(ops, id) == ops.contains(Op::Label(id)) by {
        if defines(ops, id) {
            let i = choose|i: int| 0 <= i < ops.len() && #[trigger] ops[i] == Op::Label(id);
            assert(ops[i] == Op::Label(id));
        }
        if ops.contains(Op::Label(id)) {
            let i = choose|i: int| 0 <= i < ops.len() && ops[i] == Op::Label(id);
            assert(ops[i] == Op::Label(id));
        }
    }
    if assembled(ops) is Ok {
        assert forall|i: int, id: u32|
            0 <= i < ops.len() && (#[trigger] ops[i] == Op::Jump(id) || ops[i] == Op::JumpIf(
                id,
            )) implies #[trigger] ops.contains(Op::Label(id)) by {
            assert(defines(ops, id));
        }
    }
    if let Some(id) = first_undefined(ops, ops) {
        let i = choose|i: int|
            0 <= i < ops.len() && (#[trigger] ops[i] == Op::Jump(id) || ops[i] == Op::JumpIf(id));
        assert(!ops.contains(Op::Label(id)));
        assert(ops[i] == Op::Jump(id) || ops[i] == Op::JumpIf(id));
    }
    if let Some(id) = first_duplicate(ops) {
        let (i, j) = choose|i: int, j: int|
            0 <= i < j < ops.len() && #[trigger] ops[i] == Op::Label(id) && #[trigger] ops[j]
                == Op::Label(id);
        assert(ops[i] is Label && ops[i] == ops[j]);
    }
}

/// The code is the program without its labels: every instruction stands after
/// those before it, as it was written, and a jump leads to what follows its
/// label.
pub proof fn law_code_follows_the_program(ops: Seq<Op>, i: int, l: int)
    requires
        assembled(ops) is Ok,
        ops.len() <= usize::MAX,
        0 <= i < ops.len(),
        0 <= l < ops.len(),
    ensures
        ({
            let code = assembled(ops)->Ok_0;
            let at = emitted(ops.take(i)) as int;
            &&& code.len() == emitted(ops)
            &&& !(ops[i] is Label) ==> at < code.len()
            &&& ops[i] matches Op::I(instr) ==> code[at] == instr
            &&& ops[i] matches Op::Jump(id) ==> ops[l] == Op::Label(id) ==> (code[at]
                matches Instr::Jump(t) && t == emitted(ops.take(l)))
            &&& ops[i] matches Op::JumpIf(id) ==> ops[l] == Op::Label(id) ==> (code[at]
                matches Instr::JumpIf(t) && t == emitted(ops.take(l)))
        }),
{
    lemma_duplicates(ops);
    lemma_emit_len(ops, ops);
    if !(ops[i] is Label) {
        lemma_emit_at(ops, ops, i);
    }
    if let Op::Label(id) = ops[l] {
        assert forall|k: int| 0 <= k < ops.len() && k != l implies #[trigger] ops[k] != Op::Label(
            id,
        ) by {
            if k < l {
                assert(ops[k] is Label ==> ops[k] != ops[l]);
            } else {
                assert(ops[l] != ops[k]);
            }
        }
        lemma_target_at(ops, id, l);
        lemma_emitted_take(ops, l);
    }
}

proof fn lemma_first_duplicate_at(ops: Seq<Op>) -> (j: int)
    requires
        first_duplicate(ops) is Some,
    ensures
        0 <= j < ops.len(),
        ops[j] == Op::Label(first_duplicate(ops)->0),
        defines(ops.take(j), first_duplicate(ops)->0),
        first_duplicate(ops.take(j)) is None,
    decreases ops.len(),
{
    let rest = ops.drop_last();
    let last = ops.len() - 1;
    if first_duplicate(rest) is Some {
        let j = lemma_first_duplicate_at(rest);
        assert(rest.take(j) =~= ops.take(j));
        j
    } else {
        assert(ops.take(last) =~= rest);
        last
    }
}

proof fn lemma_first_undefined_at(ops: Seq<Op>, all: Seq<Op>) -> (j: int)
    requires
        first_undefined(ops, all) is Some,
    ensures
        0 <= j < ops.len(),
        ops[j] == Op::Jump(first_undefined(ops, all)->0) || ops[j] == Op::JumpIf(
            first_undefined(ops, all)->0,
        ),
        !defines(all, first_undefined(ops, all)->0),
        first_undefined(ops.take(j), all) is None,
    decreases ops.len(),
{
    let rest = ops.drop_last();
    let last = ops.len() - 1;
    if first_undefined(rest, all) is Some {
        let j = lemma_first_undefined_at(rest, all);
        assert(rest.take(j) =~= ops.take(j));
        j
    } else {
        assert(ops.take(last) =~= rest);
        last
    }
}

/// A label that is defined twice is reported where it comes the second time, if
/// no label before that does.
pub proof fn law_the_first_double_label_is_reported(ops: Seq<Op>, id: u32)
    requires
        assembled(ops) == Err::<Seq<Instr>, AsmError>(AsmError::DuplicateLabel(id)),
    ensures
        exists|i: int, j: int|
            0 <= i < j < ops.len() && #[trigger] ops[i] == Op::Label(id) && #[trigger] ops[j]
                == Op::Label(id) && (forall|a: int, b: int|
                0 <= a < b < j && (#[trigger] ops[a]) is Label ==> ops[a] != #[trigger] ops[b]),
{
    let j = lemma_first_duplicate_at(ops);
    let front = ops.take(j);
    lemma_duplicates(front);
    let i = choose|i: int| 0 <= i < front.len() && #[trigger] front[i] == Op::Label(id);
    assert(ops[i] == front[i]);
    assert forall|a: int, b: int| 0 <= a < b < j && (#[trigger] ops[a]) is Label implies ops[a]
        != #[trigger] ops[b] by {
        assert(front[a] == ops[a] && front[b] == ops[b]);
    }
    assert(ops[i] == Op::Label(id) && ops[j] == Op::Label(id));
}

/// A jump to nowhere is reported if no label is defined twice, and no jump
/// before it goes nowhere.
pub proof fn law_the_first_jump_to_nowhere_is_reported(ops: Seq<Op>, id: u32)
    requires
        assembled(ops) == Err::<Seq<Instr>, AsmError>(AsmError::UndefinedLabel(id)),
    ensures
        forall|a: int, b: int|
            0 <= a < b < ops.len() && (#[trigger] ops[a]) is Label ==> ops[a] != #[trigger] ops[b],
        exists|j: int|
            0 <= j < ops.len() && (#[trigger] ops[j] == Op::Jump(id) || ops[j] == Op::JumpIf(id))
                && (forall|a: int, other: u32|
                0 <= a < j && (#[trigger] ops[a] == Op::Jump(other) || ops[a] == Op::JumpIf(other))
                    ==> #[trigger] defines(ops, other)),
        !defines(ops, id),
{
    lemma_duplicates(ops);
    let j = lemma_first_undefined_at(ops, ops);
    let front = ops.take(j);
    lemma_undefined(front, ops);
    assert forall|a: int, other: u32|
        0 <= a < j && (#[trigger] ops[a] == Op::Jump(other) || ops[a] == Op::JumpIf(
            other,
        )) implies #[trigger] defines(ops, other) by {
        assert(front[a] == ops[a]);
    }
    assert(ops[j] == Op::Jump(id) || ops[j] == Op::JumpIf(id));
}

} // verus!
