//! What instructions do.
//!
//! Comparisons, negation, arrays and tuples and their parts, changes of width, pointers and
//! assertions are defined here. What the other instructions do, such as arithmetic and calls, is
//! left open: it is a parameter, the world that the code runs in.

use vstd::arithmetic::power2::*;
use vstd::prelude::*;
use crate::ssa::hlssa::{BinaryOp, FunctionId, InstructionView, Opcode, ValueId};

verus! {

/// What a value holds: an unsigned number, a function, a pointer, or the parts of an array or a
/// tuple. A signed number is held by its bit pattern, a truth value as 0 or 1.
pub enum Data {
    Number(int),
    Function(FunctionId),
    Pointer(nat),
    Parts(Seq<Data>),
}

/// What pointers point to, and what has been written there, if anything.
pub type Heap = Seq<Option<Data>>;

/// A machine: what its values hold, and its heap.
#[verifier::ext_equal]
pub struct Machine {
    pub held: Map<ValueId, Data>,
    pub heap: Heap,
}

/// What the instructions do that are not defined here, given what their operands hold and the
/// heap: the result and the heap after it, or, where there is no result, the heap alone.
pub struct World {
    pub result: spec_fn(Opcode, Seq<Data>, Heap) -> Option<(Data, Heap)>,
    pub effect: spec_fn(Opcode, Seq<Data>, Heap) -> Option<Heap>,
}

impl Data {
    /// The part at a position, if there is one.
    pub open spec fn part(self, position: int) -> Option<Data> {
        match self {
            Data::Parts(parts) if 0 <= position < parts.len() => Some(parts[position]),
            _ => None,
        }
    }

    /// The same, with the part at a position replaced.
    pub open spec fn with_part(self, position: int, part: Data) -> Data {
        match self {
            Data::Parts(parts) => Data::Parts(parts.update(position, part)),
            _ => self,
        }
    }

    /// What this points to in a heap, if it is a pointer to something.
    pub open spec fn target(self, heap: Heap) -> Option<Data> {
        match self {
            Data::Pointer(address) if address < heap.len() => heap[address as int],
            _ => None,
        }
    }
}

/// A truth value as a number.
pub open spec fn truth(b: bool) -> Data {
    Data::Number(
        if b {
            1
        } else {
            0
        },
    )
}

/// The signed number that a bit pattern of a width stands for, in two's complement.
pub open spec fn signed_value(pattern: int, bits: nat) -> int {
    if pattern < pow2((bits - 1) as nat) {
        pattern
    } else {
        pattern - pow2(bits)
    }
}

/// The bit pattern in which a signed number is wider by sign extension.
pub open spec fn sign_extended(pattern: int, from: nat, to: nat) -> int {
    if pattern < pow2((from - 1) as nat) {
        pattern
    } else {
        pattern + pow2(to) - pow2(from)
    }
}

/// What a negated truth value is.
pub open spec fn negation(data: Data) -> Option<Data> {
    match data {
        Data::Number(x) if x == 0 || x == 1 => Some(truth(x == 0)),
        _ => None,
    }
}

/// Whether what an instruction computes is defined here.
pub open spec fn is_computation(op: Opcode) -> bool {
    match op {
        Opcode::MkTuple | Opcode::MkSeq(_) | Opcode::MkRepeated(_, _) | Opcode::TupleProj(_)
        | Opcode::Cast(_) | Opcode::Not | Opcode::BitRange(_, _) | Opcode::Sext(_, _)
        | Opcode::ArrayGet | Opcode::ArraySet | Opcode::SliceLen => true,
        Opcode::Binary(op) => op is Eq || op is Lt,
        _ => false,
    }
}

/// What an instruction that leaves the heap alone makes of its operands.
pub open spec fn compute(op: Opcode, operands: Seq<Data>) -> Option<Data> {
    match op {
        Opcode::MkTuple => Some(Data::Parts(operands)),
        Opcode::MkSeq(_) => Some(Data::Parts(operands)),
        Opcode::MkRepeated(_, count) if operands.len() == 1 => Some(
            Data::Parts(Seq::new(count as nat, |i: int| operands[0])),
        ),
        Opcode::TupleProj(field) if operands.len() == 1 => operands[0].part(field as int),
        Opcode::SliceLen if operands.len() == 1 => match operands[0] {
            Data::Parts(parts) => Some(Data::Number(parts.len() as int)),
            _ => None,
        },
        Opcode::Cast(_) if operands.len() == 1 => Some(operands[0]),
        Opcode::Not if operands.len() == 1 => negation(operands[0]),
        Opcode::BitRange(first, count) if operands.len() == 1 => match operands[0] {
            Data::Number(x) => Some(
                Data::Number((x / pow2(first as nat) as int) % pow2(count as nat) as int),
            ),
            _ => None,
        },
        Opcode::Sext(from, to) if operands.len() == 1 => match operands[0] {
            Data::Number(x) => Some(Data::Number(sign_extended(x, from as nat, to as nat))),
            _ => None,
        },
        Opcode::Binary(BinaryOp::Eq) if operands.len() == 2 => match (operands[0], operands[1]) {
            (Data::Number(x), Data::Number(y)) => Some(truth(x == y)),
            _ => None,
        },
        Opcode::Binary(BinaryOp::Lt) if operands.len() == 2 => match (operands[0], operands[1]) {
            (Data::Number(x), Data::Number(y)) => Some(truth(x < y)),
            _ => None,
        },
        Opcode::ArrayGet if operands.len() == 2 => match operands[1] {
            Data::Number(index) => operands[0].part(index),
            _ => None,
        },
        Opcode::ArraySet if operands.len() == 3 => match operands[1] {
            Data::Number(index) => if operands[0].part(index) is Some {
                Some(operands[0].with_part(index, operands[2]))
            } else {
                None
            },
            _ => None,
        },
        _ => None,
    }
}

/// The result of an instruction that has one, and the heap after it.
pub open spec fn produce(world: World, op: Opcode, operands: Seq<Data>, heap: Heap) -> Option<
    (Data, Heap),
> {
    if op is Alloc {
        Some((Data::Pointer(heap.len()), heap.push(None)))
    } else if op is Load {
        if operands.len() == 1 {
            match operands[0].target(heap) {
                Some(data) => Some((data, heap)),
                None => None,
            }
        } else {
            None
        }
    } else if is_computation(op) {
        match compute(op, operands) {
            Some(data) => Some((data, heap)),
            None => None,
        }
    } else {
        (world.result)(op, operands, heap)
    }
}

/// The heap with something written through a pointer, if it is one.
pub open spec fn stored(heap: Heap, pointer: Data, data: Data) -> Option<Heap> {
    match pointer {
        Data::Pointer(address) if address < heap.len() => Some(
            heap.update(address as int, Some(data)),
        ),
        _ => None,
    }
}

/// The heap after an instruction without results. `None` where an assertion does not hold.
pub open spec fn affect(world: World, op: Opcode, operands: Seq<Data>, heap: Heap) -> Option<Heap> {
    match op {
        Opcode::Store => if operands.len() == 2 {
            stored(heap, operands[0], operands[1])
        } else {
            None
        },
        Opcode::AssertBool => if operands.len() == 1 && operands[0] == truth(true) {
            Some(heap)
        } else {
            None
        },
        Opcode::AssertEq => if operands.len() == 2 && operands[0] == operands[1] {
            Some(heap)
        } else {
            None
        },
        _ => (world.effect)(op, operands, heap),
    }
}

/// What some values hold.
pub open spec fn operand_data(held: Map<ValueId, Data>, values: Seq<ValueId>) -> Seq<Data> {
    Seq::new(values.len(), |i: int| held[values[i]])
}

/// All the values hold something.
pub open spec fn all_held(held: Map<ValueId, Data>, values: Seq<ValueId>) -> bool {
    forall|i: int| 0 <= i < values.len() ==> held.contains_key(#[trigger] values[i])
}

/// The machine after an instruction. `None` where an assertion does not hold, and where the
/// instruction cannot be carried out.
pub open spec fn step(world: World, machine: Machine, instruction: InstructionView) -> Option<Machine> {
    let operands = operand_data(machine.held, instruction.operands);
    if !all_held(machine.held, instruction.operands) {
        None
    } else if instruction.results.len() == 0 {
        match affect(world, instruction.op, operands, machine.heap) {
            Some(heap) => Some(Machine { heap, ..machine }),
            None => None,
        }
    } else if instruction.results.len() == 1 {
        match produce(world, instruction.op, operands, machine.heap) {
            Some((data, heap)) => Some(
                Machine { held: machine.held.insert(instruction.results[0], data), heap },
            ),
            None => None,
        }
    } else {
        None
    }
}

/// The machine after some instructions, one after the other.
pub open spec fn run(world: World, machine: Machine, instructions: Seq<InstructionView>) -> Option<
    Machine,
>
    decreases instructions.len(),
{
    if instructions.len() == 0 {
        Some(machine)
    } else {
        match run(world, machine, instructions.drop_last()) {
            Some(after) => step(world, after, instructions.last()),
            None => None,
        }
    }
}

} // verus!
