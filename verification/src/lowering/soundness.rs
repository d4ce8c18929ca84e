//! What every step of a conversion keeps.

use vstd::prelude::*;
use crate::lowering::model::{LoopContext, LowerState};
use crate::ssa::hlssa::{BlockId, BlockView, ConstantView, Opcode, TerminatorView, TypeView, ValueId};

verus! {

impl LowerState {
    /// The blocks and the value that a loop speaks of exist.
    pub open spec fn has_loop(self, context: LoopContext) -> bool {
        &&& self.code.has_block(context.loop_header)
        &&& self.code.has_block(context.exit_block)
        &&& context.for_loop_index matches Some((index, _)) ==> self.code.has_value(index)
    }

    /// The code is in static single assignment form and whole, and all that the state speaks of
    /// exists: the current block, the values that locals are bound to, the enclosing loops.
    pub open spec fn well_formed(self) -> bool {
        &&& self.code.well_formed()
        &&& self.code.has_block(self.current)
        &&& forall|local: u32|
            self.bindings.contains_key(local) ==> self.code.has_value(
                #[trigger] self.bindings[local],
            )
        &&& forall|i: int| 0 <= i < self.loops.len() ==> self.has_loop(#[trigger] self.loops[i])
    }
}

/// A block of which only the end has been added to: instructions, and a terminator if it had
/// none.
pub open spec fn extends_block(before: BlockView, after: BlockView) -> bool {
    &&& after.parameters == before.parameters
    &&& before.instructions.is_prefix_of(after.instructions)
    &&& before.terminator is Some ==> after.terminator is Some
}

/// What is there stays: the values defined so far, every block but the current one, and of the
/// current one all but its end. Control has moved to no block but a new one, and no local is
/// forgotten.
#[verifier::opaque]
pub open spec fn keeps(before: LowerState, after: LowerState) -> bool {
    &&& before.code.values.is_prefix_of(after.code.values)
    &&& after.current == before.current || after.current.0 >= before.code.blocks.len()
    &&& forall|b: int|
        0 <= b < before.code.blocks.len() && b != before.current.0 ==> (
        #[trigger] after.code.blocks[b]) == before.code.blocks[b]
    &&& extends_block(
        before.code.blocks[before.current.0 as int],
        after.code.blocks[before.current.0 as int],
    )
    &&& before.bindings.dom().subset_of(after.bindings.dom())
    &&& before.mutable_locals.subset_of(after.mutable_locals)
}

/// `after` comes from `before` by writing more code.
pub open spec fn continues(before: LowerState, after: LowerState) -> bool {
    &&& before.code.values.len() <= after.code.values.len()
    &&& before.code.blocks.len() <= after.code.blocks.len()
    &&& before.code.is_open(before.current) ==> after.code.is_open(after.current)
    &&& keeps(before, after)
}

/// What holds of the states before and after an expression, and of its value.
pub open spec fn sound_step(
    before: LowerState,
    after: LowerState,
    result: Option<ValueId>,
) -> bool {
    &&& after.well_formed()
    &&& continues(before, after)
    &&& after.loops == before.loops
    &&& result matches Some(value) ==> after.code.has_value(value)
}

pub proof fn lemma_continues_refl(s: LowerState)
    ensures
        continues(s, s),
{
    reveal(keeps);
}

pub broadcast proof fn lemma_continues_trans(a: LowerState, b: LowerState, c: LowerState)
    requires
        #[trigger] continues(a, b),
        #[trigger] continues(b, c),
        a.code.has_block(a.current),
    ensures
        continues(a, c),
{
    reveal(keeps);
    assert forall|i: int|
        0 <= i < a.code.blocks.len() && i != a.current.0 implies (
    #[trigger] c.code.blocks[i]) == a.code.blocks[i] by {
        assert(b.code.blocks[i] == a.code.blocks[i]);
    }
    if b.current != a.current {
        assert(c.code.blocks[a.current.0 as int] == b.code.blocks[a.current.0 as int]);
    }
}

/// An instruction added to the current block.
pub proof fn lemma_emit_step(
    s: LowerState,
    op: Opcode,
    operands: Seq<ValueId>,
    types: Seq<TypeView>,
    count: nat,
)
    requires
        s.code.has_block(s.current),
    ensures
        continues(s, s.emit(op, operands, types, count)),
{
    reveal(keeps);
}

/// A constant added.
pub proof fn lemma_constant_step(s: LowerState, constant: ConstantView)
    requires
        s.code.has_block(s.current),
    ensures
        continues(s, s.constant(constant)),
{
    reveal(keeps);
}

/// A state is well-formed once its code has grown into other well-formed code.
pub proof fn lemma_grown(s: LowerState, after: LowerState)
    requires
        s.well_formed(),
        after.code.well_formed(),
        after.code.values.len() >= s.code.values.len(),
        after.code.blocks.len() >= s.code.blocks.len(),
        after.bindings == s.bindings,
        after.loops == s.loops,
        after.code.has_block(after.current),
    ensures
        after.well_formed(),
{
    assert forall|i: int| 0 <= i < after.loops.len() implies after.has_loop(
        #[trigger] after.loops[i],
    ) by {
        assert(s.has_loop(s.loops[i]));
    }
}

/// The block that control has moved to is the same, or new.
pub proof fn lemma_current_kept_or_new(before: LowerState, after: LowerState)
    requires
        keeps(before, after),
    ensures
        after.current == before.current || after.current.0 >= before.code.blocks.len(),
{
    reveal(keeps);
}

pub proof fn lemma_keeps_refl(s: LowerState)
    ensures
        keeps(s, s),
{
    reveal(keeps);
}

/// Keeping what was kept keeps it.
pub proof fn lemma_keeps_trans(a: LowerState, b: LowerState, c: LowerState)
    requires
        keeps(a, b),
        keeps(b, c),
        a.code.has_block(a.current),
        a.code.blocks.len() <= b.code.blocks.len(),
        a.code.values.len() <= b.code.values.len(),
    ensures
        keeps(a, c),
{
    reveal(keeps);
    assert forall|i: int|
        0 <= i < a.code.blocks.len() && i != a.current.0 implies (
    #[trigger] c.code.blocks[i]) == a.code.blocks[i] by {
        assert(b.code.blocks[i] == a.code.blocks[i]);
    }
    if b.current != a.current {
        assert(c.code.blocks[a.current.0 as int] == b.code.blocks[a.current.0 as int]);
    }
}

/// Ending the block that was current at first, or a new one, changes nothing that is to stay.
pub proof fn lemma_keeps_terminate(
    base: LowerState,
    s: LowerState,
    from: BlockId,
    terminator: TerminatorView,
)
    requires
        keeps(base, s),
        base.code.has_block(base.current),
        base.code.blocks.len() <= s.code.blocks.len(),
        from == base.current || from.0 >= base.code.blocks.len(),
        s.code.has_block(from),
    ensures
        keeps(base, LowerState { code: s.code.terminate(from, terminator), ..s }),
{
    reveal(keeps);
}

/// New blocks change nothing that is there.
pub proof fn lemma_keeps_add_block(base: LowerState, s: LowerState)
    requires
        keeps(base, s),
        base.code.has_block(base.current),
        base.code.blocks.len() <= s.code.blocks.len(),
    ensures
        keeps(base, s.add_block()),
{
    reveal(keeps);
}

/// A parameter of a new block changes nothing that is there.
pub proof fn lemma_keeps_parameter(base: LowerState, s: LowerState, block: BlockId, typ: TypeView)
    requires
        keeps(base, s),
        base.code.has_block(base.current),
        base.code.blocks.len() <= s.code.blocks.len(),
        base.code.values.len() <= s.code.values.len(),
        block.0 >= base.code.blocks.len(),
        s.code.has_block(block),
    ensures
        keeps(base, s.parameter(block, typ)),
{
    reveal(keeps);
}

/// Control moved to a new block.
pub proof fn lemma_keeps_at(base: LowerState, s: LowerState, block: BlockId)
    requires
        keeps(base, s),
        block.0 >= base.code.blocks.len(),
    ensures
        keeps(base, s.at(block)),
{
    reveal(keeps);
}

/// What is bound, and which loops enclose, is no part of the code.
pub proof fn lemma_keeps_scope(base: LowerState, s: LowerState, after: LowerState)
    requires
        keeps(base, s),
        after.code == s.code,
        after.current == s.current,
        s.bindings.dom().subset_of(after.bindings.dom()),
        s.mutable_locals.subset_of(after.mutable_locals),
    ensures
        keeps(base, after),
{
    reveal(keeps);
}

/// Binding a local, to a value that exists, keeps a state well-formed.
pub proof fn lemma_bound(s: LowerState, after: LowerState)
    requires
        s.well_formed(),
        after.code == s.code,
        after.current == s.current,
        after.loops == s.loops,
        s.bindings.dom().subset_of(after.bindings.dom()),
        s.mutable_locals.subset_of(after.mutable_locals),
        forall|local: u32|
            after.bindings.contains_key(local) ==> s.code.has_value(
                #[trigger] after.bindings[local],
            ),
    ensures
        after.well_formed(),
        continues(s, after),
{
    reveal(keeps);
    assert forall|i: int| 0 <= i < after.loops.len() implies after.has_loop(
        #[trigger] after.loops[i],
    ) by {
        assert(s.has_loop(s.loops[i]));
    }
}

/// Entering a loop, at a block that exists.
pub proof fn lemma_entered(s: LowerState, after: LowerState, context: LoopContext)
    requires
        s.well_formed(),
        after.code == s.code,
        after.bindings == s.bindings,
        after.loops == s.loops.push(context),
        s.has_loop(context),
        s.code.has_block(after.current),
    ensures
        after.well_formed(),
{
    assert forall|i: int| 0 <= i < after.loops.len() implies after.has_loop(
        #[trigger] after.loops[i],
    ) by {
        if i < s.loops.len() {
            assert(s.has_loop(s.loops[i]));
        }
    }
}

/// Leaving a loop.
pub proof fn lemma_left(before: LowerState, s: LowerState, after: LowerState)
    requires
        before.well_formed(),
        s.well_formed(),
        after.code == s.code,
        after.bindings == s.bindings,
        after.current == s.current,
        after.loops == before.loops,
        before.code.values.len() <= s.code.values.len(),
        before.code.blocks.len() <= s.code.blocks.len(),
    ensures
        after.well_formed(),
{
    assert forall|i: int| 0 <= i < after.loops.len() implies after.has_loop(
        #[trigger] after.loops[i],
    ) by {
        assert(before.has_loop(before.loops[i]));
    }
}

/// A block that is neither the current one nor new is left as it is.
pub proof fn lemma_other_block(before: LowerState, after: LowerState, block: BlockId)
    requires
        keeps(before, after),
        before.code.has_block(block),
        block != before.current,
    ensures
        after.code.blocks[block.0 as int] == before.code.blocks[block.0 as int],
{
    reveal(keeps);
}

} // verus!
