//! The builder through which a function's code is written, block by block.

use vstd::prelude::*;
use crate::ssa::hlssa;
use crate::ssa::hlssa::{
    Block, BlockId, BlockView, Constant, ConstantView, Instruction, InstructionView, Opcode,
    Terminator, TerminatorView, Type, TypeView, ValueDef, ValueDefView, ValueId,
};

verus! {

/// The code of a function: its values, each with its origin, and its blocks.
#[verifier::ext_equal]
pub struct Code {
    pub values: Seq<ValueDefView>,
    pub blocks: Seq<BlockView>,
}

/// The next `count` values after the first `len`.
pub open spec fn fresh_values(len: nat, count: nat) -> Seq<ValueId> {
    Seq::new(count, |k: int| ValueId((len + k) as usize))
}

impl Code {
    /// The value that is defined next.
    pub open spec fn next_value(self) -> ValueId {
        ValueId(self.values.len() as usize)
    }

    /// The block that is added next.
    pub open spec fn next_block(self) -> BlockId {
        BlockId(self.blocks.len() as usize)
    }

    pub open spec fn has_value(self, value: ValueId) -> bool {
        value.0 < self.values.len()
    }

    pub open spec fn has_values(self, values: Seq<ValueId>) -> bool {
        forall|i: int| 0 <= i < values.len() ==> self.has_value(#[trigger] values[i])
    }

    pub open spec fn has_block(self, block: BlockId) -> bool {
        block.0 < self.blocks.len()
    }

    /// Whether a block can still take instructions.
    pub open spec fn is_open(self, block: BlockId) -> bool {
        self.blocks[block.0 as int].terminator is None
    }

    /// The code with an empty block added.
    pub open spec fn add_block(self) -> Code {
        Code {
            blocks: self.blocks.push(
                BlockView { parameters: seq![], instructions: seq![], terminator: None },
            ),
            ..self
        }
    }

    /// The code with a constant added, as the next value.
    pub open spec fn add_const(self, constant: ConstantView) -> Code {
        Code { values: self.values.push(ValueDefView::Constant(constant)), ..self }
    }

    /// The code with a parameter added to a block, as the next value.
    pub open spec fn add_parameter(self, block: BlockId, typ: TypeView) -> Code {
        let old_block = self.blocks[block.0 as int];
        let position = old_block.parameters.len();
        Code {
            values: self.values.push(ValueDefView::Parameter(block, position as usize)),
            blocks: self.blocks.update(
                block.0 as int,
                BlockView {
                    parameters: old_block.parameters.push((self.next_value(), typ)),
                    ..old_block
                },
            ),
        }
    }

    /// The code with an instruction added at the end of a block; its results are the next
    /// `count` values.
    pub open spec fn emit(
        self,
        block: BlockId,
        op: Opcode,
        operands: Seq<ValueId>,
        types: Seq<TypeView>,
        count: nat,
    ) -> Code {
        let old_block = self.blocks[block.0 as int];
        let position = old_block.instructions.len();
        let results = fresh_values(self.values.len(), count);
        Code {
            values: self.values + Seq::new(
                count,
                |k: int| ValueDefView::Result(block, position as usize, k as usize),
            ),
            blocks: self.blocks.update(
                block.0 as int,
                BlockView {
                    instructions: old_block.instructions.push(
                        InstructionView { op, results, operands, types },
                    ),
                    ..old_block
                },
            ),
        }
    }

    /// The code with the terminator of a block set.
    pub open spec fn terminate(self, block: BlockId, terminator: TerminatorView) -> Code {
        Code {
            blocks: self.blocks.update(
                block.0 as int,
                BlockView { terminator: Some(terminator), ..self.blocks[block.0 as int] },
            ),
            ..self
        }
    }

    /// Every result and every parameter is recorded as the value's one origin. No two places
    /// of the code can therefore define the same value.
    pub open spec fn single_assignment(self) -> bool {
        &&& forall|b: int, i: int, k: int|
            #![trigger self.blocks[b].instructions[i].results[k]]
            0 <= b < self.blocks.len() && 0 <= i < self.blocks[b].instructions.len() && 0 <= k
                < self.blocks[b].instructions[i].results.len() ==> {
                let value = self.blocks[b].instructions[i].results[k];
                &&& self.has_value(value)
                &&& self.values[value.0 as int] == ValueDefView::Result(
                    BlockId(b as usize),
                    i as usize,
                    k as usize,
                )
            }
        &&& forall|b: int, k: int|
            #![trigger self.blocks[b].parameters[k]]
            0 <= b < self.blocks.len() && 0 <= k < self.blocks[b].parameters.len() ==> {
                let value = self.blocks[b].parameters[k].0;
                &&& self.has_value(value)
                &&& self.values[value.0 as int] == ValueDefView::Parameter(
                    BlockId(b as usize),
                    k as usize,
                )
            }
    }

    /// A value is a constant, or is defined where its origin says.
    pub open spec fn is_defined(self, v: int) -> bool {
        match self.values[v] {
            ValueDefView::Constant(_) => true,
            ValueDefView::Parameter(block, position) => {
                &&& self.has_block(block)
                &&& position < self.blocks[block.0 as int].parameters.len()
                &&& self.blocks[block.0 as int].parameters[position as int].0 == ValueId(
                    v as usize,
                )
            },
            ValueDefView::Result(block, position, place) => {
                &&& self.has_block(block)
                &&& position < self.blocks[block.0 as int].instructions.len()
                &&& place < self.blocks[block.0 as int].instructions[position as int].results.len()
                &&& self.blocks[block.0 as int].instructions[position as int].results[place as int]
                    == ValueId(v as usize)
            },
        }
    }

    /// Every value that is no constant is defined where its origin says.
    pub open spec fn all_defined(self) -> bool {
        forall|v: int|
            #![trigger self.values[v]]
            0 <= v < self.values.len() ==> self.is_defined(v)
    }

    /// What a terminator reads, and where it leads, exists.
    pub open spec fn leads_on(self, terminator: TerminatorView) -> bool {
        match terminator {
            TerminatorView::Jmp(target, args) => self.has_block(target) && self.has_values(args),
            TerminatorView::JmpIf(cond, then_block, else_block) => self.has_value(cond)
                && self.has_block(then_block) && self.has_block(else_block),
        }
    }

    /// Everything that the code mentions exists: the values that instructions and terminators
    /// read, and the blocks that control goes to.
    pub open spec fn no_dangling(self) -> bool {
        &&& forall|b: int, i: int|
            #![trigger self.blocks[b].instructions[i]]
            0 <= b < self.blocks.len() && 0 <= i < self.blocks[b].instructions.len()
                ==> self.has_values(self.blocks[b].instructions[i].operands)
        &&& forall|b: int|
            0 <= b < self.blocks.len() ==> match (#[trigger] self.blocks[b]).terminator {
                None => true,
                Some(terminator) => self.leads_on(terminator),
            }
    }

    /// The machine's own limits: everything can be counted.
    pub open spec fn countable(self) -> bool {
        &&& self.values.len() <= usize::MAX
        &&& self.blocks.len() <= usize::MAX
        &&& forall|b: int|
            0 <= b < self.blocks.len() ==> {
                &&& (#[trigger] self.blocks[b]).instructions.len() <= usize::MAX
                &&& self.blocks[b].parameters.len() <= usize::MAX
            }
        &&& forall|b: int, i: int|
            #![trigger self.blocks[b].instructions[i]]
            0 <= b < self.blocks.len() && 0 <= i < self.blocks[b].instructions.len()
                ==> self.blocks[b].instructions[i].results.len() <= usize::MAX
    }

    /// The code is in static single assignment form and whole.
    #[verifier::opaque]
    pub open spec fn well_formed(self) -> bool {
        &&& self.countable()
        &&& self.single_assignment()
        &&& self.all_defined()
        &&& self.no_dangling()
    }

    proof fn lemma_block_countable(self, block: BlockId)
        requires
            self.well_formed(),
            self.has_block(block),
        ensures
            self.blocks[block.0 as int].instructions.len() <= usize::MAX,
            self.blocks[block.0 as int].parameters.len() <= usize::MAX,
    {
        reveal(Code::well_formed);
    }

    pub proof fn lemma_countable(self)
        requires
            self.well_formed(),
        ensures
            self.values.len() <= usize::MAX,
            self.blocks.len() <= usize::MAX,
    {
        reveal(Code::well_formed);
    }
}

/// No value is defined twice: two results that are the same value are the same result of the
/// same instruction.
pub proof fn law_a_value_is_one_result(
    code: Code,
    b1: int,
    i1: int,
    k1: int,
    b2: int,
    i2: int,
    k2: int,
)
    requires
        code.well_formed(),
        0 <= b1 < code.blocks.len(),
        0 <= i1 < code.blocks[b1].instructions.len(),
        0 <= k1 < code.blocks[b1].instructions[i1].results.len(),
        0 <= b2 < code.blocks.len(),
        0 <= i2 < code.blocks[b2].instructions.len(),
        0 <= k2 < code.blocks[b2].instructions[i2].results.len(),
        code.blocks[b1].instructions[i1].results[k1]
            == code.blocks[b2].instructions[i2].results[k2],
    ensures
        b1 == b2 && i1 == i2 && k1 == k2,
{
    reveal(Code::well_formed);
    assert(code.blocks[b1].instructions.len() <= usize::MAX);
    assert(code.blocks[b2].instructions.len() <= usize::MAX);
}

/// No value is defined twice: two parameters that are the same value are the same parameter of
/// the same block.
pub proof fn law_a_value_is_one_parameter(code: Code, b1: int, k1: int, b2: int, k2: int)
    requires
        code.well_formed(),
        0 <= b1 < code.blocks.len(),
        0 <= k1 < code.blocks[b1].parameters.len(),
        0 <= b2 < code.blocks.len(),
        0 <= k2 < code.blocks[b2].parameters.len(),
        code.blocks[b1].parameters[k1].0 == code.blocks[b2].parameters[k2].0,
    ensures
        b1 == b2 && k1 == k2,
{
    reveal(Code::well_formed);
    assert(code.blocks[b1].parameters.len() <= usize::MAX);
    assert(code.blocks[b2].parameters.len() <= usize::MAX);
}

/// No value is defined twice: no result is a parameter.
pub proof fn law_no_result_is_a_parameter(code: Code, b1: int, i: int, k1: int, b2: int, k2: int)
    requires
        code.well_formed(),
        0 <= b1 < code.blocks.len(),
        0 <= i < code.blocks[b1].instructions.len(),
        0 <= k1 < code.blocks[b1].instructions[i].results.len(),
        0 <= b2 < code.blocks.len(),
        0 <= k2 < code.blocks[b2].parameters.len(),
    ensures
        code.blocks[b1].instructions[i].results[k1] != code.blocks[b2].parameters[k2].0,
{
    reveal(Code::well_formed);
}

proof fn lemma_add_block(code: Code)
    requires
        code.well_formed(),
        code.add_block().blocks.len() <= usize::MAX,
    ensures
        code.add_block().well_formed(),
{
    reveal(Code::well_formed);
    let after = code.add_block();
    assert forall|b: int| 0 <= b < code.blocks.len() implies after.blocks[b] == code.blocks[b] by {}
    assert(after.countable());
    assert(after.single_assignment());
    assert(after.all_defined());
    assert(after.no_dangling()) by {
        assert forall|b: int, i: int|
            #![trigger after.blocks[b].instructions[i]]
            0 <= b < after.blocks.len() && 0 <= i < after.blocks[b].instructions.len() implies after.has_values(
            after.blocks[b].instructions[i].operands,
        ) by {
            assert(code.has_values(code.blocks[b].instructions[i].operands));
        }
    }
}

proof fn lemma_add_const(code: Code, constant: ConstantView)
    requires
        code.well_formed(),
        code.values.len() < usize::MAX,
    ensures
        code.add_const(constant).well_formed(),
{
    reveal(Code::well_formed);
    let after = code.add_const(constant);
    assert(after.single_assignment());
    assert(after.all_defined());
    assert(after.no_dangling()) by {
        lemma_no_dangling_kept(code, after);
    }
}

/// Code whose blocks are the same, with more values, still mentions nothing that is missing.
proof fn lemma_no_dangling_kept(code: Code, after: Code)
    requires
        code.no_dangling(),
        after.blocks == code.blocks,
        after.values.len() >= code.values.len(),
    ensures
        after.no_dangling(),
{
    assert forall|b: int, i: int|
        #![trigger after.blocks[b].instructions[i]]
        0 <= b < after.blocks.len() && 0 <= i < after.blocks[b].instructions.len()
        implies after.has_values(after.blocks[b].instructions[i].operands) by {
        assert(code.has_values(code.blocks[b].instructions[i].operands));
    }
    assert forall|b: int| 0 <= b < after.blocks.len() implies match (
    #[trigger] after.blocks[b]).terminator {
        None => true,
        Some(terminator) => after.leads_on(terminator),
    } by {
        assert(code.blocks[b] == after.blocks[b]);
    }
}

/// One block has been added to, at the ends of its parameters and instructions, and perhaps
/// ended. The code is well-formed if what was added is.
proof fn lemma_block_added_to(code: Code, after: Code, block: BlockId)
    requires
        code.well_formed(),
        code.has_block(block),
        code.values.is_prefix_of(after.values),
        after.values.len() <= usize::MAX,
        after.blocks == code.blocks.update(block.0 as int, after.blocks[block.0 as int]),
        ({
            let old_block = code.blocks[block.0 as int];
            let new_block = after.blocks[block.0 as int];
            &&& old_block.parameters.is_prefix_of(new_block.parameters)
            &&& old_block.instructions.is_prefix_of(new_block.instructions)
            &&& new_block.parameters.len() <= usize::MAX
            &&& new_block.instructions.len() <= usize::MAX
            &&& forall|k: int|
                #![trigger new_block.parameters[k]]
                old_block.parameters.len() <= k < new_block.parameters.len() ==> {
                    let value = new_block.parameters[k].0;
                    &&& after.has_value(value)
                    &&& after.values[value.0 as int] == ValueDefView::Parameter(block, k as usize)
                }
            &&& forall|i: int|
                #![trigger new_block.instructions[i]]
                old_block.instructions.len() <= i < new_block.instructions.len() ==> {
                    &&& new_block.instructions[i].results.len() <= usize::MAX
                    &&& after.has_values(new_block.instructions[i].operands)
                }
            &&& forall|i: int, k: int|
                #![trigger new_block.instructions[i].results[k]]
                old_block.instructions.len() <= i < new_block.instructions.len() && 0 <= k
                    < new_block.instructions[i].results.len() ==> {
                    let value = new_block.instructions[i].results[k];
                    &&& after.has_value(value)
                    &&& after.values[value.0 as int] == ValueDefView::Result(
                        block,
                        i as usize,
                        k as usize,
                    )
                }
            &&& match new_block.terminator {
                None => true,
                Some(terminator) => new_block.terminator == old_block.terminator
                    || after.leads_on(terminator),
            }
        }),
        forall|v: int|
            #![trigger after.values[v]]
            code.values.len() <= v < after.values.len() ==> after.is_defined(v),
    ensures
        after.well_formed(),
{
    reveal(Code::well_formed);
    let at = block.0 as int;
    let old_block = code.blocks[at];
    let new_block = after.blocks[at];
    assert(after.countable()) by {
        assert forall|b: int, i: int|
            #![trigger after.blocks[b].instructions[i]]
            0 <= b < after.blocks.len() && 0 <= i < after.blocks[b].instructions.len()
            implies after.blocks[b].instructions[i].results.len() <= usize::MAX by {
            if b != at || i < old_block.instructions.len() {
                assert(code.blocks[b].instructions[i] == after.blocks[b].instructions[i]);
            } else {
                assert(new_block.instructions[i].results.len() <= usize::MAX);
            }
        }
    }
    assert(after.single_assignment()) by {
        assert forall|b: int, i: int, k: int|
            #![trigger after.blocks[b].instructions[i].results[k]]
            0 <= b < after.blocks.len() && 0 <= i < after.blocks[b].instructions.len() && 0 <= k
                < after.blocks[b].instructions[i].results.len() implies {
            let value = after.blocks[b].instructions[i].results[k];
            &&& after.has_value(value)
            &&& after.values[value.0 as int] == ValueDefView::Result(
                BlockId(b as usize),
                i as usize,
                k as usize,
            )
        } by {
            if b != at || i < old_block.instructions.len() {
                assert(code.blocks[b].instructions[i].results[k]
                    == after.blocks[b].instructions[i].results[k]);
            } else {
                assert(new_block.instructions[i].results[k]
                    == after.blocks[b].instructions[i].results[k]);
            }
        }
        assert forall|b: int, k: int|
            #![trigger after.blocks[b].parameters[k]]
            0 <= b < after.blocks.len() && 0 <= k < after.blocks[b].parameters.len() implies {
            let value = after.blocks[b].parameters[k].0;
            &&& after.has_value(value)
            &&& after.values[value.0 as int] == ValueDefView::Parameter(
                BlockId(b as usize),
                k as usize,
            )
        } by {
            if b != at || k < old_block.parameters.len() {
                assert(code.blocks[b].parameters[k] == after.blocks[b].parameters[k]);
            } else {
                assert(new_block.parameters[k] == after.blocks[b].parameters[k]);
            }
        }
    }
    assert(after.all_defined()) by {
        assert forall|v: int|
            #![trigger after.values[v]]
            0 <= v < after.values.len() implies after.is_defined(v) by {
            if v < code.values.len() {
                assert(after.values[v] == code.values[v]);
                assert(code.is_defined(v));
            }
        }
    }
    assert(after.no_dangling()) by {
        assert forall|b: int, i: int|
            #![trigger after.blocks[b].instructions[i]]
            0 <= b < after.blocks.len() && 0 <= i < after.blocks[b].instructions.len()
            implies after.has_values(after.blocks[b].instructions[i].operands) by {
            if b != at || i < old_block.instructions.len() {
                assert(code.has_values(code.blocks[b].instructions[i].operands));
                assert(code.blocks[b].instructions[i] == after.blocks[b].instructions[i]);
            } else {
                assert(after.has_values(new_block.instructions[i].operands));
            }
        }
        assert forall|b: int| 0 <= b < after.blocks.len() implies match (
        #[trigger] after.blocks[b]).terminator {
            None => true,
            Some(terminator) => after.leads_on(terminator),
        } by {
            if let Some(terminator) = after.blocks[b].terminator {
                if code.blocks[b].terminator == Some(terminator) {
                    assert(code.leads_on(terminator));
                }
            }
        }
    }
}

proof fn lemma_add_parameter(code: Code, block: BlockId, typ: TypeView)
    requires
        code.well_formed(),
        code.has_block(block),
        code.values.len() < usize::MAX,
        code.blocks[block.0 as int].parameters.len() < usize::MAX,
    ensures
        code.add_parameter(block, typ).well_formed(),
{
    code.lemma_block_countable(block);
    lemma_block_added_to(code, code.add_parameter(block, typ), block);
}

proof fn lemma_emit(
    code: Code,
    block: BlockId,
    op: Opcode,
    operands: Seq<ValueId>,
    types: Seq<TypeView>,
    count: nat,
)
    requires
        code.well_formed(),
        code.has_block(block),
        code.has_values(operands),
        code.values.len() + count <= usize::MAX,
        code.blocks[block.0 as int].instructions.len() < usize::MAX,
    ensures
        code.emit(block, op, operands, types, count).well_formed(),
{
    code.lemma_block_countable(block);
    let after = code.emit(block, op, operands, types, count);
    let position = code.blocks[block.0 as int].instructions.len() as int;
    assert(after.blocks[block.0 as int].instructions[position].results == fresh_values(
        code.values.len(),
        count,
    ));
    lemma_block_added_to(code, after, block);
}

proof fn lemma_terminate(code: Code, block: BlockId, terminator: TerminatorView)
    requires
        code.well_formed(),
        code.has_block(block),
        code.leads_on(terminator),
    ensures
        code.terminate(block, terminator).well_formed(),
{
    code.lemma_countable();
    code.lemma_block_countable(block);
    lemma_block_added_to(code, code.terminate(block, terminator), block);
}

/// Writes the code of one function.
pub struct HLFunctionBuilder {
    values: Vec<ValueDef>,
    blocks: Vec<Block>,
}

impl View for HLFunctionBuilder {
    type V = Code;

    closed spec fn view(&self) -> Code {
        Code {
            values: self.values@.map_values(|v: ValueDef| v@),
            blocks: self.blocks@.map_values(|b: Block| b@),
        }
    }
}

impl HLFunctionBuilder {
    /// A function without code.
    pub fn new() -> (builder: HLFunctionBuilder)
        ensures
            builder@ == (Code { values: seq![], blocks: seq![] }),
            builder@.well_formed(),
    {
        let builder = HLFunctionBuilder { values: Vec::new(), blocks: Vec::new() };
        proof {
            assert(builder@ =~= (Code { values: seq![], blocks: seq![] }));
            reveal(Code::well_formed);
        }
        builder
    }

    /// The blocks written so far.
    pub fn blocks(&self) -> (blocks: &Vec<Block>)
        ensures
            blocks@.map_values(|b: Block| b@) == self@.blocks,
    {
        &self.blocks
    }

    /// The values defined so far, each with its origin.
    pub fn values(&self) -> (values: &Vec<ValueDef>)
        ensures
            values@.map_values(|v: ValueDef| v@) == self@.values,
    {
        &self.values
    }

    /// Adds an empty block.
    pub fn add_block(&mut self) -> (block: BlockId)
        requires
            old(self)@.well_formed(),
        ensures
            final(self)@ == old(self)@.add_block(),
            block == old(self)@.next_block(),
            final(self)@.well_formed(),
    {
        let block = BlockId(self.blocks.len());
        self.blocks.push(
            Block { parameters: Vec::new(), instructions: Vec::new(), terminator: None },
        );
        proof {
            let empty = self.blocks@.last();
            assert(empty@ =~= (BlockView {
                parameters: seq![],
                instructions: seq![],
                terminator: None,
            }));
            assert(self@ =~= old(self)@.add_block());
            assert(self@.blocks.len() == self.blocks.len());
            lemma_add_block(old(self)@);
        }
        block
    }

    /// Adds a constant.
    pub fn emit_const(&mut self, constant: Constant) -> (value: ValueId)
        requires
            old(self)@.well_formed(),
        ensures
            final(self)@ == old(self)@.add_const(constant@),
            value == old(self)@.next_value(),
            final(self)@.well_formed(),
    {
        let value = ValueId(self.values.len());
        self.values.push(ValueDef::Constant(constant));
        proof {
            assert(self@ =~= old(self)@.add_const(constant@));
            assert(self@.values.len() == self.values.len());
            lemma_add_const(old(self)@, constant@);
        }
        value
    }

    /// Adds a parameter to a block.
    pub fn add_parameter(&mut self, block: BlockId, typ: Type) -> (value: ValueId)
        requires
            old(self)@.well_formed(),
            old(self)@.has_block(block),
        ensures
            final(self)@ == old(self)@.add_parameter(block, typ@),
            value == old(self)@.next_value(),
            final(self)@.well_formed(),
    {
        let value = ValueId(self.values.len());
        let position = self.blocks[block.0].parameters.len();
        self.values.push(ValueDef::Parameter(block, position));
        self.blocks[block.0].parameters.push((value, typ));
        proof {
            let old_block = old(self).blocks@[block.0 as int];
            let new_block = self.blocks@[block.0 as int];
            assert(new_block@ =~= (BlockView {
                parameters: old_block@.parameters.push((value, typ@)),
                ..old_block@
            }));
            assert(self@ =~= old(self)@.add_parameter(block, typ@));
            assert(self@.values.len() == self.values.len());
            assert(new_block@.parameters.len() == new_block.parameters.len());
            lemma_add_parameter(old(self)@, block, typ@);
        }
        value
    }

    /// Adds an instruction with one result.
    pub fn emit(
        &mut self,
        block: BlockId,
        op: Opcode,
        operands: Vec<ValueId>,
        types: Vec<Type>,
    ) -> (value: ValueId)
        requires
            old(self)@.well_formed(),
            old(self)@.has_block(block),
            old(self)@.has_values(operands@),
        ensures
            final(self)@ == old(self)@.emit(block, op, operands@, hlssa::type_views(types@), 1),
            value == old(self)@.next_value(),
            final(self)@.well_formed(),
    {
        let value = ValueId(self.values.len());
        let position = self.blocks[block.0].instructions.len();
        self.values.push(ValueDef::Result(block, position, 0));
        let instruction = Instruction { op, results: vec![value], operands, types };
        self.blocks[block.0].instructions.push(instruction);
        proof {
            self.lemma_emitted(*old(self), block, instruction, 1);
        }
        value
    }

    /// Adds an instruction without results.
    pub fn emit_effect(
        &mut self,
        block: BlockId,
        op: Opcode,
        operands: Vec<ValueId>,
        types: Vec<Type>,
    )
        requires
            old(self)@.well_formed(),
            old(self)@.has_block(block),
            old(self)@.has_values(operands@),
        ensures
            final(self)@ == old(self)@.emit(block, op, operands@, hlssa::type_views(types@), 0),
            final(self)@.well_formed(),
    {
        let instruction = Instruction { op, results: Vec::new(), operands, types };
        self.blocks[block.0].instructions.push(instruction);
        proof {
            self.lemma_emitted(*old(self), block, instruction, 0);
        }
    }

    /// Adds an instruction with two results.
    pub fn emit_pair(
        &mut self,
        block: BlockId,
        op: Opcode,
        operands: Vec<ValueId>,
        types: Vec<Type>,
    ) -> (pair: (ValueId, ValueId))
        requires
            old(self)@.well_formed(),
            old(self)@.has_block(block),
            old(self)@.has_values(operands@),
        ensures
            final(self)@ == old(self)@.emit(block, op, operands@, hlssa::type_views(types@), 2),
            seq![pair.0, pair.1] == fresh_values(old(self)@.values.len(), 2),
            final(self)@.well_formed(),
    {
        let position = self.blocks[block.0].instructions.len();
        let first = ValueId(self.values.len());
        self.values.push(ValueDef::Result(block, position, 0));
        let second = ValueId(self.values.len());
        self.values.push(ValueDef::Result(block, position, 1));
        let instruction = Instruction { op, results: vec![first, second], operands, types };
        self.blocks[block.0].instructions.push(instruction);
        proof {
            self.lemma_emitted(*old(self), block, instruction, 2);
        }
        (first, second)
    }

    proof fn lemma_emitted(
        self,
        before: HLFunctionBuilder,
        block: BlockId,
        instruction: Instruction,
        count: nat,
    )
        requires
            before@.well_formed(),
            before@.has_block(block),
            before@.has_values(instruction.operands@),
            instruction.results@ =~= fresh_values(before.values@.len(), count),
            self.values@.len() == before.values@.len() + count,
            forall|v: int| 0 <= v < before.values@.len() ==> self.values@[v] == before.values@[v],
            forall|k: int|
                0 <= k < count ==> #[trigger] self.values@[before.values@.len() + k]
                    == ValueDef::Result(
                    block,
                    before.blocks@[block.0 as int].instructions@.len() as usize,
                    k as usize,
                ),
            self.blocks@ == before.blocks@.update(block.0 as int, self.blocks@[block.0 as int]),
            self.blocks@[block.0 as int] == (Block {
                instructions: self.blocks@[block.0 as int].instructions,
                ..before.blocks@[block.0 as int]
            }),
            self.blocks@[block.0 as int].instructions@
                == before.blocks@[block.0 as int].instructions@.push(instruction),
        ensures
            self@ == before@.emit(
                block,
                instruction.op,
                instruction.operands@,
                hlssa::type_views(instruction.types@),
                count,
            ),
            self@.well_formed(),
    {
        let old_block = before.blocks@[block.0 as int];
        let new_block = self.blocks@[block.0 as int];
        let after = before@.emit(
            block,
            instruction.op,
            instruction.operands@,
            hlssa::type_views(instruction.types@),
            count,
        );
        assert(new_block@ =~= (BlockView {
            instructions: old_block@.instructions.push(instruction@),
            ..old_block@
        }));
        assert forall|v: int| 0 <= v < self@.values.len() implies self@.values[v]
            == after.values[v] by {
            let k = v - before.values@.len();
            assert(self.values@[before.values@.len() + k] == self.values@[v]);
        }
        assert(self@.values =~= after.values);
        assert(self@.blocks =~= after.blocks);
        assert(self.values.len() == self.values@.len());
        assert(new_block.instructions.len() == new_block.instructions@.len());
        lemma_emit(
            before@,
            block,
            instruction.op,
            instruction.operands@,
            hlssa::type_views(instruction.types@),
            count,
        );
    }

    /// Ends a block with a jump, whose target takes `args` for its parameters.
    pub fn terminate_jmp(&mut self, block: BlockId, target: BlockId, args: Vec<ValueId>)
        requires
            old(self)@.well_formed(),
            old(self)@.has_block(block),
            old(self)@.has_block(target),
            old(self)@.has_values(args@),
        ensures
            final(self)@ == old(self)@.terminate(block, TerminatorView::Jmp(target, args@)),
            final(self)@.well_formed(),
    {
        self.blocks[block.0].terminator = Some(Terminator::Jmp(target, args));
        proof {
            assert(self@ =~= old(self)@.terminate(block, TerminatorView::Jmp(target, args@)));
            lemma_terminate(old(self)@, block, TerminatorView::Jmp(target, args@));
        }
    }

    /// Ends a block with a jump to one of two blocks.
    pub fn terminate_jmp_if(
        &mut self,
        block: BlockId,
        cond: ValueId,
        then_block: BlockId,
        else_block: BlockId,
    )
        requires
            old(self)@.well_formed(),
            old(self)@.has_block(block),
            old(self)@.has_value(cond),
            old(self)@.has_block(then_block),
            old(self)@.has_block(else_block),
        ensures
            final(self)@ == old(self)@.terminate(
                block,
                TerminatorView::JmpIf(cond, then_block, else_block),
            ),
            final(self)@.well_formed(),
    {
        self.blocks[block.0].terminator = Some(Terminator::JmpIf(cond, then_block, else_block));
        proof {
            let terminator = TerminatorView::JmpIf(cond, then_block, else_block);
            assert(self@ =~= old(self)@.terminate(block, terminator));
            lemma_terminate(old(self)@, block, terminator);
        }
    }

    /// Whether a block has been ended.
    pub fn is_terminated(&self, block: BlockId) -> (terminated: bool)
        requires
            self@.has_block(block),
        ensures
            terminated == !self@.is_open(block),
    {
        self.blocks[block.0].terminator.is_some()
    }
}

/// An instruction is recorded as it was given, at the end of its block, and its results are the
/// values that come next, each of which knows where it comes from. Nothing else changes.
pub proof fn law_instructions_are_recorded_as_given(
    code: Code,
    block: BlockId,
    op: Opcode,
    operands: Seq<ValueId>,
    types: Seq<TypeView>,
    count: nat,
)
    requires
        code.has_block(block),
        code.values.len() + count <= usize::MAX,
    ensures
        ({
            let after = code.emit(block, op, operands, types, count);
            let before = code.blocks[block.0 as int].instructions;
            let now = after.blocks[block.0 as int].instructions;
            &&& now.len() == before.len() + 1
            &&& before.is_prefix_of(now)
            &&& now.last().op == op
            &&& now.last().operands == operands
            &&& now.last().types == types
            &&& now.last().results.len() == count
            &&& forall|k: int|
                0 <= k < count ==> (#[trigger] now.last().results[k]).0 == code.values.len() + k
            &&& after.values.len() == code.values.len() + count
            &&& code.values.is_prefix_of(after.values)
            &&& forall|k: int|
                0 <= k < count ==> (#[trigger] after.values[code.values.len() + k])
                    == ValueDefView::Result(block, before.len() as usize, k as usize)
            &&& after.blocks[block.0 as int].parameters == code.blocks[block.0 as int].parameters
            &&& after.blocks[block.0 as int].terminator == code.blocks[block.0 as int].terminator
            &&& after.blocks.len() == code.blocks.len()
            &&& forall|b: int|
                0 <= b < code.blocks.len() && b != block.0 ==> (#[trigger] after.blocks[b])
                    == code.blocks[b]
        }),
{
}

/// A parameter is recorded at the end of the parameters of its block, with its type, and is the value
/// that comes next; a constant is recorded as it is, and is the value that comes next; a block that
/// is added is empty and comes last; and how a block ends is recorded as it was given. Nothing else
/// changes.
pub proof fn law_the_rest_is_recorded_as_given(
    code: Code,
    block: BlockId,
    typ: TypeView,
    constant: ConstantView,
    terminator: TerminatorView,
)
    requires
        code.has_block(block),
    ensures
        ({
            let after = code.add_parameter(block, typ);
            let old_block = code.blocks[block.0 as int];
            let new_block = after.blocks[block.0 as int];
            &&& new_block.parameters.len() == old_block.parameters.len() + 1
            &&& old_block.parameters.is_prefix_of(new_block.parameters)
            &&& new_block.parameters.last() == (ValueId(code.values.len() as usize), typ)
            &&& new_block.instructions == old_block.instructions
            &&& new_block.terminator == old_block.terminator
            &&& after.values.len() == code.values.len() + 1
            &&& code.values.is_prefix_of(after.values)
            &&& after.values.last() == ValueDefView::Parameter(
                block,
                old_block.parameters.len() as usize,
            )
            &&& after.blocks.len() == code.blocks.len()
            &&& forall|b: int|
                0 <= b < code.blocks.len() && b != block.0 ==> (#[trigger] after.blocks[b])
                    == code.blocks[b]
        }),
        ({
            let after = code.add_const(constant);
            &&& after.blocks == code.blocks
            &&& after.values.len() == code.values.len() + 1
            &&& code.values.is_prefix_of(after.values)
            &&& after.values.last() == ValueDefView::Constant(constant)
        }),
        ({
            let after = code.add_block();
            &&& after.values == code.values
            &&& after.blocks.len() == code.blocks.len() + 1
            &&& code.blocks.is_prefix_of(after.blocks)
            &&& after.blocks.last().parameters.len() == 0
            &&& after.blocks.last().instructions.len() == 0
            &&& after.blocks.last().terminator is None
        }),
        ({
            let after = code.terminate(block, terminator);
            &&& after.values == code.values
            &&& after.blocks.len() == code.blocks.len()
            &&& after.blocks[block.0 as int].terminator == Some(terminator)
            &&& after.blocks[block.0 as int].instructions
                == code.blocks[block.0 as int].instructions
            &&& after.blocks[block.0 as int].parameters == code.blocks[block.0 as int].parameters
            &&& forall|b: int|
                0 <= b < code.blocks.len() && b != block.0 ==> (#[trigger] after.blocks[b])
                    == code.blocks[b]
        }),
{
}

} // verus!
