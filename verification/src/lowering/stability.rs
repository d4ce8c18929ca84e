//! What stays when code is added.

use vstd::prelude::*;
use crate::ast;
use crate::ast::LocalId;
use crate::lowering::model;
use crate::lowering::model::{AccessStep, LowerState};
use crate::ssa::hlssa::{ConstantView, Opcode, TypeView, ValueId};

verus! {

/// The current block is there and can be added to.
pub open spec fn settled(s: LowerState) -> bool {
    s.code.has_block(s.current) && s.code.is_open(s.current)
}

/// What is there stays: the values, every block but the current one, and of the current one all
/// but its end. The block that is then current is the same or a new one, and can be added to.
#[verifier::opaque]
pub open spec fn kept(s: LowerState, after: LowerState) -> bool {
    &&& s.code.values.is_prefix_of(after.code.values)
    &&& after.loops == s.loops
    &&& s.code.has_block(s.current) ==> {
        &&& after.code.has_block(after.current)
        &&& s.code.blocks.len() <= after.code.blocks.len()
    }
    &&& settled(s) && after.code.blocks.len() <= usize::MAX ==> {
        &&& settled(after)
        &&& after.current == s.current || after.current.0 >= s.code.blocks.len()
        &&& forall|b: int|
            0 <= b < s.code.blocks.len() && b != s.current.0 ==> (#[trigger] after.code.blocks[b])
                == s.code.blocks[b]
        &&& after.code.blocks[s.current.0 as int].parameters
            == s.code.blocks[s.current.0 as int].parameters
        &&& s.code.blocks[s.current.0 as int].instructions.is_prefix_of(
            after.code.blocks[s.current.0 as int].instructions,
        )
    }
}

/// A local is bound to the same value, or still unbound, and is as mutable as it was.
pub open spec fn same_local(s: LowerState, after: LowerState, l: u32) -> bool {
    &&& after.bindings.contains_key(l) == s.bindings.contains_key(l)
    &&& after.bindings[l] == s.bindings[l]
    &&& after.mutable_locals.contains(l) == s.mutable_locals.contains(l)
}

/// What is bound, and which loops enclose, is the same.
pub open spec fn same_scope(s: LowerState, after: LowerState) -> bool {
    &&& after.bindings == s.bindings
    &&& after.mutable_locals == s.mutable_locals
    &&& after.loops == s.loops
}

/// Code was added to what is there, and nothing was bound.
pub open spec fn adds(s: LowerState, after: LowerState) -> bool {
    &&& same_scope(s, after)
    &&& kept(s, after)
    &&& s.code.values.len() <= after.code.values.len()
}

pub broadcast proof fn lemma_kept_refl(s: LowerState)
    ensures
        #[trigger] kept(s, s),
{
    reveal(kept);
}

pub proof fn lemma_kept_trans(a: LowerState, b: LowerState, c: LowerState)
    requires
        kept(a, b),
        kept(b, c),
    ensures
        kept(a, c),
{
    reveal(kept);
    assert forall|i: int| 0 <= i < a.code.values.len() implies c.code.values[i]
        == a.code.values[i] by {
        assert(b.code.values[i] == a.code.values[i]);
    }
    if settled(a) && c.code.blocks.len() <= usize::MAX {
        assert forall|i: int| 0 <= i < a.code.blocks.len() && i != a.current.0 implies (
        #[trigger] c.code.blocks[i]) == a.code.blocks[i] by {
            assert(b.code.blocks[i] == a.code.blocks[i]);
        }
        let at = a.current.0 as int;
        if b.current != a.current {
            assert(c.code.blocks[at] == b.code.blocks[at]);
        }
        let x = a.code.blocks[at].instructions;
        let y = b.code.blocks[at].instructions;
        let z = c.code.blocks[at].instructions;
        assert(x.is_prefix_of(z)) by {
            assert forall|i: int| 0 <= i < x.len() implies z[i] == x[i] by {
                assert(y[i] == x[i]);
            }
        }
    }
}

/// An instruction added.
pub broadcast proof fn lemma_kept_emit(
    o: LowerState,
    s: LowerState,
    op: Opcode,
    operands: Seq<ValueId>,
    types: Seq<TypeView>,
    count: nat,
)
    requires
        #[trigger] kept(o, s),
    ensures
        kept(o, #[trigger] s.emit(op, operands, types, count)),
{
    reveal(kept);
    let after = s.emit(op, operands, types, count);
    assert(kept(s, after));
    lemma_kept_trans(o, s, after);
}

/// A constant added.
pub broadcast proof fn lemma_kept_constant(o: LowerState, s: LowerState, constant: ConstantView)
    requires
        #[trigger] kept(o, s),
    ensures
        kept(o, #[trigger] s.constant(constant)),
{
    reveal(kept);
    let after = s.constant(constant);
    assert(kept(s, after));
    lemma_kept_trans(o, s, after);
}

/// What is bound is no part of the code.
pub proof fn lemma_kept_scope(o: LowerState, s: LowerState, after: LowerState)
    requires
        kept(o, s),
        after.code == s.code,
        after.current == s.current,
        after.loops == s.loops,
    ensures
        kept(o, after),
{
    reveal(kept);
}

/// A local bound.
pub broadcast proof fn lemma_kept_bind(o: LowerState, s: LowerState, local: LocalId, value: ValueId)
    requires
        #[trigger] kept(o, s),
    ensures
        kept(o, #[trigger] s.bind(local, value)),
{
    lemma_kept_scope(o, s, s.bind(local, value));
}

/// A mutable local bound.
pub broadcast proof fn lemma_kept_bind_mut(
    o: LowerState,
    s: LowerState,
    local: LocalId,
    value: ValueId,
    typ: TypeView,
)
    requires
        #[trigger] kept(o, s),
    ensures
        kept(o, #[trigger] s.bind_mut(local, value, typ)),
{
    let (s1, pointer) = s.value(Opcode::Alloc, seq![], seq![typ]);
    let s2 = s1.emit(Opcode::Store, seq![pointer, value], seq![], 0);
    lemma_kept_emit(o, s, Opcode::Alloc, seq![], seq![typ], 1);
    lemma_kept_emit(o, s1, Opcode::Store, seq![pointer, value], seq![], 0);
    lemma_kept_scope(o, s2, s.bind_mut(local, value, typ));
}

/// Constants only add code.
pub proof fn lemma_constants_add(s: LowerState, constants: Seq<ConstantView>)
    ensures
        adds(s, model::lower_constants(s, constants).0),
    decreases constants.len(),
{
    lemma_kept_refl(s);
    if constants.len() > 0 {
        lemma_constants_add(s, constants.drop_last());
        let s1 = model::lower_constants(s, constants.drop_last()).0;
        lemma_kept_constant(s, s1, constants.last());
    }
}

/// Taking a tuple apart only adds code.
pub proof fn lemma_fields_add(s: LowerState, tuple: ValueId, replaced: usize, part: ValueId, n: nat)
    ensures
        adds(s, model::lower_fields(s, tuple, replaced, part, n).0),
    decreases n,
{
    broadcast use lemma_kept_emit;

    lemma_kept_refl(s);
    if n > 0 {
        lemma_fields_add(s, tuple, replaced, part, (n - 1) as nat);
    }
}

/// Replacing a part only adds code.
pub proof fn lemma_replace_adds(
    s: LowerState,
    whole: ValueId,
    typ: ast::Type,
    path: Seq<AccessStep>,
    new_value: ValueId,
)
    ensures
        model::lower_replace(s, whole, typ, path, new_value) matches Some((after, _)) ==> adds(
            s,
            after,
        ),
    decreases path.len(),
{
    broadcast use lemma_kept_emit;

    lemma_kept_refl(s);
    if path.len() > 0 {
        let (s1, part) = model::lower_part(s, whole, path[0]);
        if let Some(inner) = model::part_type(typ, path[0]) {
            lemma_replace_adds(s1, part, inner, path.drop_first(), new_value);
            if let Some((s2, new_part)) = model::lower_replace(
                s1,
                part,
                inner,
                path.drop_first(),
                new_value,
            ) {
                lemma_kept_trans(s, s1, s2);
                if let (AccessStep::Field(field), ast::Type::Tuple(fields)) = (path[0], typ) {
                    lemma_fields_add(s2, whole, field, new_part, fields@.len());
                    let s3 = model::lower_fields(s2, whole, field, new_part, fields@.len()).0;
                    lemma_kept_trans(s, s2, s3);
                }
            }
        }
    }
}

} // verus!
