//! Running the code that a conversion has written.

use vstd::prelude::*;
use crate::lowering::model::LowerState;
use crate::ssa::hlssa::{ConstantView, InstructionView, Opcode, TypeView, ValueDefView, ValueId};
use crate::ssa::semantics;
use crate::ssa::semantics::{Data, Heap, Machine, World};

verus! {

impl LowerState {
    /// The instructions of the current block.
    pub open spec fn instructions(self) -> Seq<InstructionView> {
        self.code.blocks[self.current.0 as int].instructions
    }

    /// Only values that exist hold anything.
    pub open spec fn has_all(self, machine: Machine) -> bool {
        forall|v: ValueId| #[trigger] machine.held.contains_key(v) ==> self.code.has_value(v)
    }
}

/// The instructions that the current block has more than it had.
pub open spec fn written(before: LowerState, after: LowerState) -> Seq<InstructionView> {
    after.instructions().skip(before.instructions().len() as int)
}

/// What a constant holds.
pub open spec fn constant_data(constant: ConstantView) -> Data {
    match constant {
        ConstantView::U(_, pattern) => Data::Number(pattern as int),
        ConstantView::I(_, pattern) => Data::Number(pattern as int),
        ConstantView::Field(element) => Data::Number(element as int),
        ConstantView::FnPtr(function) => Data::Function(function),
    }
}

/// What a value that has been added holds from the start.
pub open spec fn added_data(before: LowerState, after: LowerState, value: ValueId) -> Option<Data> {
    if before.code.values.len() <= value.0 < after.code.values.len() {
        match after.code.values[value.0 as int] {
            ValueDefView::Constant(constant) => Some(constant_data(constant)),
            _ => None,
        }
    } else {
        None
    }
}

/// The machine on which the code written between two states starts: the constants that have been
/// added are there.
pub open spec fn loaded(before: LowerState, machine: Machine, after: LowerState) -> Machine {
    Machine {
        held: Map::new(
            |v: ValueId| machine.held.contains_key(v) || added_data(before, after, v) is Some,
            |v: ValueId|
                if machine.held.contains_key(v) {
                    machine.held[v]
                } else {
                    added_data(before, after, v)->0
                },
        ),
        ..machine
    }
}

/// The machine once the code written between two states, in one block, has run. `None` if it
/// does not run through.
pub open spec fn outcome(
    world: World,
    before: LowerState,
    machine: Machine,
    after: LowerState,
) -> Option<Machine> {
    semantics::run(world, loaded(before, machine, after), written(before, after))
}

/// What held something still holds it.
pub open spec fn extends(held: Map<ValueId, Data>, more: Map<ValueId, Data>) -> bool {
    forall|v: ValueId| #[trigger]
        held.contains_key(v) ==> more.contains_key(v) && more[v] == held[v]
}

/// The code written between two states stays in one block and runs through, from one machine to
/// another.
#[verifier::opaque]
pub open spec fn runs(
    world: World,
    before: LowerState,
    start: Machine,
    after: LowerState,
    end: Machine,
) -> bool {
    &&& after.current == before.current
    &&& after.code.blocks.len() == before.code.blocks.len()
    &&& before.code.has_block(before.current)
    &&& before.code.values.len() <= after.code.values.len()
    &&& before.instructions().is_prefix_of(after.instructions())
    &&& outcome(world, before, start, after) == Some(end)
    &&& before.has_all(start)
    &&& after.has_all(end)
    &&& extends(start.held, end.held)
    &&& extends(loaded(before, start, after).held, end.held)
}

/// A machine on which one more value holds something.
pub open spec fn with_value(machine: Machine, value: ValueId, data: Data, heap: Heap) -> Machine {
    Machine { held: machine.held.insert(value, data), heap }
}

pub proof fn lemma_runs_refl(world: World, s: LowerState, machine: Machine)
    requires
        s.code.has_block(s.current),
        s.has_all(machine),
    ensures
        runs(world, s, machine, s, machine),
{
    reveal(runs);
    assert(written(s, s) =~= seq![]);
    assert(loaded(s, machine, s) =~= machine);
}

/// What is bound, and which loops enclose, is no part of the code.
pub proof fn lemma_runs_scope(
    world: World,
    before: LowerState,
    start: Machine,
    s: LowerState,
    machine: Machine,
    after: LowerState,
)
    requires
        runs(world, before, start, s, machine),
        after.code == s.code,
        after.current == s.current,
    ensures
        runs(world, before, start, after, machine),
{
    reveal(runs);
    assert(loaded(before, start, after) =~= loaded(before, start, s));
}

/// One more instruction with one result.
pub proof fn lemma_runs_value(
    world: World,
    before: LowerState,
    start: Machine,
    s: LowerState,
    machine: Machine,
    op: Opcode,
    operands: Seq<ValueId>,
    types: Seq<TypeView>,
    data: Data,
    heap: Heap,
)
    requires
        runs(world, before, start, s, machine),
        s.code.values.len() < usize::MAX,
        semantics::all_held(machine.held, operands),
        semantics::produce(world, op, semantics::operand_data(machine.held, operands), machine.heap)
            == Some((data, heap)),
    ensures
        runs(
            world,
            before,
            start,
            s.value(op, operands, types).0,
            with_value(machine, s.next(), data, heap),
        ),
        extends(machine.held, with_value(machine, s.next(), data, heap).held),
{
    reveal(runs);
    let after = s.value(op, operands, types).0;
    let more = written(before, after);
    assert(after.instructions() =~= s.instructions().push(more.last()));
    assert(more.drop_last() =~= written(before, s));
    assert(more.last().results =~= seq![s.next()]);
    assert(loaded(before, start, after) =~= loaded(before, start, s)) by {
        assert forall|v: ValueId| added_data(before, after, v) == added_data(before, s, v) by {}
    }
    assert(!machine.held.contains_key(s.next()));
}

/// One more instruction without results.
pub proof fn lemma_runs_effect(
    world: World,
    before: LowerState,
    start: Machine,
    s: LowerState,
    machine: Machine,
    op: Opcode,
    operands: Seq<ValueId>,
    heap: Heap,
)
    requires
        runs(world, before, start, s, machine),
        semantics::all_held(machine.held, operands),
        semantics::affect(world, op, semantics::operand_data(machine.held, operands), machine.heap)
            == Some(heap),
    ensures
        runs(world, before, start, s.emit(op, operands, seq![], 0), Machine { heap, ..machine }),
{
    reveal(runs);
    let after = s.emit(op, operands, seq![], 0);
    let more = written(before, after);
    assert(after.instructions() =~= s.instructions().push(more.last()));
    assert(more.drop_last() =~= written(before, s));
    assert(more.last().results =~= seq![]);
    assert(after.code.values =~= s.code.values);
    assert(loaded(before, start, after) =~= loaded(before, start, s));
}

/// One more instruction without results, which cannot be carried out.
pub proof fn lemma_stops(
    world: World,
    before: LowerState,
    start: Machine,
    s: LowerState,
    machine: Machine,
    op: Opcode,
    operands: Seq<ValueId>,
)
    requires
        runs(world, before, start, s, machine),
        semantics::affect(world, op, semantics::operand_data(machine.held, operands), machine.heap)
            is None,
    ensures
        outcome(world, before, start, s.emit(op, operands, seq![], 0)) is None,
{
    reveal(runs);
    let after = s.emit(op, operands, seq![], 0);
    let more = written(before, after);
    assert(after.instructions() =~= s.instructions().push(more.last()));
    assert(more.drop_last() =~= written(before, s));
    assert(more.last().results =~= seq![]);
    assert(after.code.values =~= s.code.values);
    assert(loaded(before, start, after) =~= loaded(before, start, s));
}

/// One more constant.
pub proof fn lemma_runs_constant(
    world: World,
    before: LowerState,
    start: Machine,
    s: LowerState,
    machine: Machine,
    constant: ConstantView,
)
    requires
        runs(world, before, start, s, machine),
        s.code.values.len() < usize::MAX,
    ensures
        runs(
            world,
            before,
            start,
            s.constant(constant),
            with_value(machine, s.next(), constant_data(constant), machine.heap),
        ),
        extends(machine.held, with_value(machine, s.next(), constant_data(constant), machine.heap).held),
{
    reveal(runs);
    let after = s.constant(constant);
    assert(written(before, after) =~= written(before, s));
    assert(!machine.held.contains_key(s.next()));
    assert(!start.held.contains_key(s.next()));
    let more = loaded(before, start, s);
    assert(loaded(before, start, after) =~= with_value(more, s.next(), constant_data(constant), more.heap)) by {
        assert forall|v: ValueId| v != s.next() implies added_data(before, after, v) == added_data(
            before,
            s,
            v,
        ) by {}
    }
    lemma_run_with_more(world, more, written(before, s), machine, s.next(), constant_data(constant));
}

/// What the instructions do not define makes no difference to them.
proof fn lemma_run_with_more(
    world: World,
    start: Machine,
    instructions: Seq<InstructionView>,
    end: Machine,
    value: ValueId,
    data: Data,
)
    requires
        semantics::run(world, start, instructions) == Some(end),
        !end.held.contains_key(value),
    ensures
        semantics::run(world, with_value(start, value, data, start.heap), instructions) == Some(
            with_value(end, value, data, end.heap),
        ),
    decreases instructions.len(),
{
    if instructions.len() > 0 {
        let last = instructions.last();
        let middle = semantics::run(world, start, instructions.drop_last())->0;
        if last.results.len() == 1 {
            assert(end.held.contains_key(last.results[0]));
        }
        lemma_run_with_more(world, start, instructions.drop_last(), middle, value, data);
        let more = with_value(middle, value, data, middle.heap);
        assert(semantics::operand_data(more.held, last.operands) =~= semantics::operand_data(
            middle.held,
            last.operands,
        ));
        assert(semantics::all_held(more.held, last.operands));
        if last.results.len() == 1 {
            let result = end.held[last.results[0]];
            assert(more.held.insert(last.results[0], result) =~= middle.held.insert(
                last.results[0],
                result,
            ).insert(value, data));
        }
    }
}

} // verus!
