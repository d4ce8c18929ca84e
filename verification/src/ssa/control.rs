//! How control goes through the blocks of a function.

use vstd::prelude::*;
use crate::ssa::builder::Code;
use crate::ssa::hlssa::{
    BlockId, BlockView, InstructionView, TerminatorView, TypeView, ValueId,
};
use crate::ssa::semantics;
use crate::ssa::semantics::{Data, Machine, World};

verus! {

/// Where control is: in a block, before the instruction at a position or, past the last one,
/// before the block's end. What the values hold there, and the heap.
#[verifier::ext_equal]
pub struct Point {
    pub block: BlockId,
    pub position: nat,
    pub machine: Machine,
}

/// The first `n` parameters bound to what the arguments hold.
pub open spec fn bound(
    held: Map<ValueId, Data>,
    parameters: Seq<(ValueId, TypeView)>,
    data: Seq<Data>,
    n: nat,
) -> Map<ValueId, Data>
    decreases n,
{
    if n == 0 {
        held
    } else {
        bound(held, parameters, data, (n - 1) as nat).insert(parameters[n - 1].0, data[n - 1])
    }
}

/// The start of a block that is entered with arguments. A parameter that there is no argument for
/// keeps what it holds.
pub open spec fn arrive(
    code: Code,
    block: BlockId,
    args: Seq<ValueId>,
    machine: Machine,
) -> Option<Point> {
    let parameters = code.blocks[block.0 as int].parameters;
    let data = semantics::operand_data(machine.held, args);
    if code.has_block(block) && semantics::all_held(machine.held, args) && args.len()
        <= parameters.len() {
        Some(
            Point {
                block,
                position: 0,
                machine: Machine {
                    held: bound(machine.held, parameters, data, args.len()),
                    ..machine
                },
            },
        )
    } else {
        None
    }
}

/// Where control goes next: past one instruction, or to the start of another block. `None` where
/// it cannot go on.
pub open spec fn advance(world: World, code: Code, p: Point) -> Option<Point> {
    let block = code.blocks[p.block.0 as int];
    if !code.has_block(p.block) {
        None
    } else if p.position < block.instructions.len() {
        match semantics::step(world, p.machine, block.instructions[p.position as int]) {
            Some(machine) => Some(Point { position: p.position + 1, machine, ..p }),
            None => None,
        }
    } else {
        match block.terminator {
            None => None,
            Some(TerminatorView::Jmp(target, args)) => arrive(code, target, args, p.machine),
            Some(TerminatorView::JmpIf(cond, then_block, else_block)) => {
                if !p.machine.held.contains_key(cond) {
                    None
                } else if p.machine.held[cond] == semantics::truth(true) {
                    arrive(code, then_block, seq![], p.machine)
                } else if p.machine.held[cond] == semantics::truth(false) {
                    arrive(code, else_block, seq![], p.machine)
                } else {
                    None
                }
            },
        }
    }
}

/// Where control is after so many steps.
pub open spec fn walk(world: World, code: Code, p: Point, n: nat) -> Option<Point>
    decreases n,
{
    if n == 0 {
        Some(p)
    } else {
        match walk(world, code, p, (n - 1) as nat) {
            Some(q) => advance(world, code, q),
            None => None,
        }
    }
}

/// Control gets from one point to another.
pub open spec fn reaches(world: World, code: Code, p: Point, q: Point) -> bool {
    exists|n: nat| #[trigger] walk(world, code, p, n) == Some(q)
}

/// A block that has been added to, if it had no end yet.
pub open spec fn added_to(block: BlockView, more: BlockView) -> bool {
    &&& block.parameters.is_prefix_of(more.parameters)
    &&& block.instructions.is_prefix_of(more.instructions)
    &&& block.terminator is Some ==> more.instructions == block.instructions && more.terminator
        == block.terminator
}

/// Code of which every block is there still, or has been added to.
pub open spec fn carries(code: Code, more: Code) -> bool {
    &&& code.blocks.len() <= more.blocks.len()
    &&& forall|b: int|
        0 <= b < code.blocks.len() ==> added_to(code.blocks[b], #[trigger] more.blocks[b])
}

/// A machine on which further values hold something.
pub open spec fn over(machine: Machine, extra: Map<ValueId, Data>) -> Machine {
    Machine { held: extra.union_prefer_right(machine.held), ..machine }
}

pub open spec fn point_over(p: Point, extra: Map<ValueId, Data>) -> Point {
    Point { machine: over(p.machine, extra), ..p }
}

pub proof fn lemma_reaches_refl(world: World, code: Code, p: Point)
    ensures
        reaches(world, code, p, p),
{
    assert(walk(world, code, p, 0) == Some(p));
}

pub proof fn lemma_reaches_advance(world: World, code: Code, p: Point, q: Point, r: Point)
    requires
        reaches(world, code, p, q),
        advance(world, code, q) == Some(r),
    ensures
        reaches(world, code, p, r),
{
    let n = choose|n: nat| #[trigger] walk(world, code, p, n) == Some(q);
    assert(walk(world, code, p, n + 1) == Some(r));
}

pub proof fn lemma_reaches_trans(world: World, code: Code, p: Point, q: Point, r: Point)
    requires
        reaches(world, code, p, q),
        reaches(world, code, q, r),
    ensures
        reaches(world, code, p, r),
{
    let n = choose|n: nat| #[trigger] walk(world, code, q, n) == Some(r);
    lemma_walk_on(world, code, p, q, r, n);
}

proof fn lemma_walk_on(world: World, code: Code, p: Point, q: Point, r: Point, n: nat)
    requires
        reaches(world, code, p, q),
        walk(world, code, q, n) == Some(r),
    ensures
        reaches(world, code, p, r),
    decreases n,
{
    if n > 0 {
        let middle = walk(world, code, q, (n - 1) as nat)->0;
        lemma_walk_on(world, code, p, q, middle, (n - 1) as nat);
        lemma_reaches_advance(world, code, p, middle, r);
    }
}

proof fn lemma_bound_prefix(
    held: Map<ValueId, Data>,
    parameters: Seq<(ValueId, TypeView)>,
    more: Seq<(ValueId, TypeView)>,
    data: Seq<Data>,
    n: nat,
)
    requires
        parameters.is_prefix_of(more),
        n <= parameters.len(),
    ensures
        bound(held, parameters, data, n) == bound(held, more, data, n),
    decreases n,
{
    if n > 0 {
        lemma_bound_prefix(held, parameters, more, data, (n - 1) as nat);
        assert(more[n - 1] == parameters[n - 1]);
    }
}

proof fn lemma_arrive_carried(
    code: Code,
    more: Code,
    block: BlockId,
    args: Seq<ValueId>,
    machine: Machine,
)
    requires
        carries(code, more),
        arrive(code, block, args, machine) is Some,
    ensures
        arrive(more, block, args, machine) == arrive(code, block, args, machine),
{
    let b = block.0 as int;
    assert(added_to(code.blocks[b], more.blocks[b]));
    lemma_bound_prefix(
        machine.held,
        code.blocks[b].parameters,
        more.blocks[b].parameters,
        semantics::operand_data(machine.held, args),
        args.len(),
    );
}

proof fn lemma_advance_carried(world: World, code: Code, more: Code, p: Point)
    requires
        carries(code, more),
        advance(world, code, p) is Some,
    ensures
        advance(world, more, p) == advance(world, code, p),
{
    let b = p.block.0 as int;
    let block = code.blocks[b];
    assert(added_to(block, more.blocks[b]));
    if p.position < block.instructions.len() {
        assert(more.blocks[b].instructions[p.position as int] == block.instructions[p.position as int]);
    } else {
        match block.terminator {
            Some(TerminatorView::Jmp(target, args)) => {
                lemma_arrive_carried(code, more, target, args, p.machine);
            },
            Some(TerminatorView::JmpIf(cond, then_block, else_block)) => {
                if p.machine.held[cond] == semantics::truth(true) {
                    lemma_arrive_carried(code, more, then_block, seq![], p.machine);
                } else {
                    lemma_arrive_carried(code, more, else_block, seq![], p.machine);
                }
            },
            None => {},
        }
    }
}

/// Control still goes where it went once code has been added.
pub proof fn lemma_reaches_carried(world: World, code: Code, more: Code, p: Point, q: Point)
    requires
        carries(code, more),
        reaches(world, code, p, q),
    ensures
        reaches(world, more, p, q),
{
    let n = choose|n: nat| #[trigger] walk(world, code, p, n) == Some(q);
    lemma_walk_carried(world, code, more, p, n);
}

proof fn lemma_walk_carried(world: World, code: Code, more: Code, p: Point, n: nat)
    requires
        carries(code, more),
        walk(world, code, p, n) is Some,
    ensures
        walk(world, more, p, n) == walk(world, code, p, n),
    decreases n,
{
    if n > 0 {
        lemma_walk_carried(world, code, more, p, (n - 1) as nat);
        lemma_advance_carried(world, code, more, walk(world, code, p, (n - 1) as nat)->0);
    }
}

proof fn lemma_bound_over(
    held: Map<ValueId, Data>,
    extra: Map<ValueId, Data>,
    parameters: Seq<(ValueId, TypeView)>,
    data: Seq<Data>,
    n: nat,
)
    ensures
        bound(extra.union_prefer_right(held), parameters, data, n) == extra.union_prefer_right(
            bound(held, parameters, data, n),
        ),
    decreases n,
{
    if n > 0 {
        lemma_bound_over(held, extra, parameters, data, (n - 1) as nat);
        let fewer = bound(held, parameters, data, (n - 1) as nat);
        let v = parameters[n - 1].0;
        assert(extra.union_prefer_right(fewer).insert(v, data[n - 1]) =~= extra.union_prefer_right(
            fewer.insert(v, data[n - 1]),
        ));
    }
}

proof fn lemma_held_over(held: Map<ValueId, Data>, extra: Map<ValueId, Data>, values: Seq<ValueId>)
    requires
        semantics::all_held(held, values),
    ensures
        semantics::all_held(extra.union_prefer_right(held), values),
        semantics::operand_data(extra.union_prefer_right(held), values) == semantics::operand_data(
            held,
            values,
        ),
{
    let more = extra.union_prefer_right(held);
    assert forall|i: int| 0 <= i < values.len() implies more.contains_key(#[trigger] values[i])
        && more[values[i]] == held[values[i]] by {}
    assert(semantics::operand_data(more, values) =~= semantics::operand_data(held, values));
}

proof fn lemma_step_over(
    world: World,
    machine: Machine,
    extra: Map<ValueId, Data>,
    instruction: InstructionView,
)
    requires
        semantics::step(world, machine, instruction) is Some,
    ensures
        semantics::step(world, over(machine, extra), instruction) == Some(
            over(semantics::step(world, machine, instruction)->0, extra),
        ),
{
    lemma_held_over(machine.held, extra, instruction.operands);
    let after = semantics::step(world, machine, instruction)->0;
    if instruction.results.len() == 1 {
        let v = instruction.results[0];
        let data = after.held[v];
        assert(extra.union_prefer_right(machine.held).insert(v, data) =~= extra.union_prefer_right(
            machine.held.insert(v, data),
        ));
    }
}

proof fn lemma_arrive_over(
    code: Code,
    block: BlockId,
    args: Seq<ValueId>,
    machine: Machine,
    extra: Map<ValueId, Data>,
)
    requires
        arrive(code, block, args, machine) is Some,
    ensures
        arrive(code, block, args, over(machine, extra)) == Some(
            point_over(arrive(code, block, args, machine)->0, extra),
        ),
{
    lemma_held_over(machine.held, extra, args);
    lemma_bound_over(
        machine.held,
        extra,
        code.blocks[block.0 as int].parameters,
        semantics::operand_data(machine.held, args),
        args.len(),
    );
}

proof fn lemma_advance_over(world: World, code: Code, p: Point, extra: Map<ValueId, Data>)
    requires
        advance(world, code, p) is Some,
    ensures
        advance(world, code, point_over(p, extra)) == Some(
            point_over(advance(world, code, p)->0, extra),
        ),
{
    let block = code.blocks[p.block.0 as int];
    if p.position < block.instructions.len() {
        lemma_step_over(world, p.machine, extra, block.instructions[p.position as int]);
    } else {
        match block.terminator {
            Some(TerminatorView::Jmp(target, args)) => {
                lemma_arrive_over(code, target, args, p.machine, extra);
            },
            Some(TerminatorView::JmpIf(cond, then_block, else_block)) => {
                assert(over(p.machine, extra).held[cond] == p.machine.held[cond]);
                if p.machine.held[cond] == semantics::truth(true) {
                    lemma_arrive_over(code, then_block, seq![], p.machine, extra);
                } else {
                    lemma_arrive_over(code, else_block, seq![], p.machine, extra);
                }
            },
            None => {},
        }
    }
}

proof fn lemma_walk_over(world: World, code: Code, p: Point, extra: Map<ValueId, Data>, n: nat)
    requires
        walk(world, code, p, n) is Some,
    ensures
        walk(world, code, point_over(p, extra), n) == Some(
            point_over(walk(world, code, p, n)->0, extra),
        ),
    decreases n,
{
    if n > 0 {
        lemma_walk_over(world, code, p, extra, (n - 1) as nat);
        lemma_advance_over(world, code, walk(world, code, p, (n - 1) as nat)->0, extra);
    }
}

/// What further values hold makes no difference to where control goes.
pub proof fn lemma_reaches_over(
    world: World,
    code: Code,
    p: Point,
    q: Point,
    extra: Map<ValueId, Data>,
)
    requires
        reaches(world, code, p, q),
    ensures
        reaches(world, code, point_over(p, extra), point_over(q, extra)),
{
    let n = choose|n: nat| #[trigger] walk(world, code, p, n) == Some(q);
    lemma_walk_over(world, code, p, extra, n);
}

/// Control goes through the instructions of a block one after the other.
pub proof fn lemma_reaches_run(
    world: World,
    code: Code,
    block: BlockId,
    position: nat,
    machine: Machine,
    instructions: Seq<InstructionView>,
    end: Machine,
)
    requires
        code.has_block(block),
        position + instructions.len() <= code.blocks[block.0 as int].instructions.len(),
        forall|i: int|
            0 <= i < instructions.len() ==> #[trigger] instructions[i]
                == code.blocks[block.0 as int].instructions[position + i],
        semantics::run(world, machine, instructions) == Some(end),
    ensures
        reaches(
            world,
            code,
            Point { block, position, machine },
            Point { block, position: position + instructions.len(), machine: end },
        ),
    decreases instructions.len(),
{
    let p = Point { block, position, machine };
    if instructions.len() == 0 {
        lemma_reaches_refl(world, code, p);
    } else {
        let fewer = instructions.drop_last();
        let middle = semantics::run(world, machine, fewer)->0;
        assert forall|i: int| 0 <= i < fewer.len() implies #[trigger] fewer[i]
            == code.blocks[block.0 as int].instructions[position + i] by {
            assert(fewer[i] == instructions[i]);
        }
        lemma_reaches_run(world, code, block, position, machine, fewer, middle);
        let q = Point { block, position: position + fewer.len(), machine: middle };
        assert(instructions.last() == instructions[instructions.len() - 1]);
        lemma_reaches_advance(
            world,
            code,
            p,
            q,
            Point { block, position: position + instructions.len(), machine: end },
        );
    }
}

} // verus!
