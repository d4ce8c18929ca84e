//! The code of straight-line expressions does what the expressions mean.

use vstd::prelude::*;
use crate::ast;
use crate::ast::{
    ArrayLiteral, Assign, Binary, BinaryOpKind, Call, Cast, Definition, Expression, ExpressionKind,
    FmtStrFragment, FuncId, Ident, If, Index, LValue, Let, Literal, Unary, UnaryOp,
};
use crate::lowering::execution;
use crate::lowering::growth;
use crate::lowering::laws;
use crate::lowering::meaning;
use crate::lowering::meaning::Scope;
use crate::lowering::model;
use crate::lowering::model::{Builtin, LowerEnv, LowerState};
use crate::lowering::stability;
use crate::lowering::type_converter;
use crate::ssa::hlssa::{
    BinaryOp, CastTarget, ConstantView, Endianness, Opcode, SequenceTargetType, TypeView, ValueId,
};
use crate::ssa::semantics;
use crate::ssa::semantics::{Data, Heap, Machine, World};

verus! {

/// A state and a machine agree with a scope: each variable's value holds what the variable is
/// bound to, the same variables are mutable, but for those that are hidden, and the heap is the
/// same.
#[verifier::opaque]
pub open spec fn agrees(s: LowerState, machine: Machine, scope: Scope) -> bool {
    &&& machine.heap == scope.heap
    &&& forall|local: u32| #[trigger]
        s.mutable_locals.contains(local) ==> scope.mutable.contains(local)
            || scope.hidden.contains(local)
    &&& scope.hidden.disjoint(scope.locals.dom())
    &&& forall|local: u32| #[trigger]
        scope.locals.contains_key(local) ==> s.bindings.contains_key(local) && laws::holds(
            machine,
            s.bindings[local],
            scope.locals[local],
        ) && s.mutable_locals.contains(local) == scope.mutable.contains(local)
}

/// The result of an expression holds its value, if it has one.
pub open spec fn gives(machine: Machine, result: Option<ValueId>, value: Option<Data>) -> bool {
    match (result, value) {
        (Some(v), Some(data)) => laws::holds(machine, v, data),
        (None, None) => true,
        _ => false,
    }
}

/// Each of the values holds what it should.
pub open spec fn gives_all(machine: Machine, values: Seq<ValueId>, data: Seq<Data>) -> bool {
    &&& values.len() == data.len()
    &&& forall|i: int|
        0 <= i < values.len() ==> laws::holds(machine, #[trigger] values[i], data[i])
}

/// Where a run of code starts, and what it runs with.
pub struct Origin {
    pub env: LowerEnv,
    pub world: World,
    pub before: LowerState,
    pub start: Machine,
}

impl Origin {
    /// The code written from there to a state has run, and the machine agrees with the scope.
    pub open spec fn done(self, s: LowerState, machine: Machine, scope: Scope) -> bool {
        &&& execution::runs(self.world, self.before, self.start, s, machine)
        &&& agrees(s, machine, scope)
    }
}

/// The code written between two states has run further, and what held something still holds it.
pub open spec fn follows(
    o: Origin,
    machine: Machine,
    after: LowerState,
    end: Machine,
    scope: Scope,
) -> bool {
    &&& o.done(after, end, scope)
    &&& execution::extends(machine.held, end.held)
    &&& end.heap == scope.heap
}

/// Agreement carries over to a machine on which more values hold something.
proof fn lemma_agrees_still(
    s: LowerState,
    machine: Machine,
    scope: Scope,
    after: LowerState,
    end: Machine,
    last: Scope,
)
    requires
        agrees(s, machine, scope),
        after.bindings == s.bindings,
        after.mutable_locals == s.mutable_locals,
        execution::extends(machine.held, end.held),
        last.locals == scope.locals,
        last.mutable == scope.mutable,
        last.hidden == scope.hidden,
        last.heap == end.heap,
    ensures
        agrees(after, end, last),
{
    reveal(agrees);
}

proof fn lemma_agrees_heap(s: LowerState, machine: Machine, scope: Scope)
    requires
        agrees(s, machine, scope),
    ensures
        machine.heap == scope.heap,
{
    reveal(agrees);
}

/// One more instruction with one result.
proof fn emit_result(
    o: Origin,
    s: LowerState,
    machine: Machine,
    scope: Scope,
    op: Opcode,
    operands: Seq<ValueId>,
    operand_data: Seq<Data>,
    types: Seq<TypeView>,
    data: Data,
    heap: Heap,
) -> (end: Machine)
    requires
        o.done(s, machine, scope),
        s.code.values.len() < usize::MAX,
        gives_all(machine, operands, operand_data),
        semantics::produce(o.world, op, operand_data, scope.heap) == Some((data, heap)),
    ensures
        follows(o, machine, s.value(op, operands, types).0, end, Scope { heap, ..scope }),
        laws::holds(end, s.next(), data),
{
    assert(semantics::operand_data(machine.held, operands) =~= operand_data);
    lemma_agrees_heap(s, machine, scope);
    execution::lemma_runs_value(
        o.world,
        o.before,
        o.start,
        s,
        machine,
        op,
        operands,
        types,
        data,
        heap,
    );
    let end = execution::with_value(machine, s.next(), data, heap);
    let after = s.value(op, operands, types).0;
    lemma_agrees_still(s, machine, scope, after, end, Scope { heap, ..scope });
    end
}

/// One more instruction that leaves the heap alone.
proof fn emit_value(
    o: Origin,
    s: LowerState,
    machine: Machine,
    scope: Scope,
    op: Opcode,
    operands: Seq<ValueId>,
    operand_data: Seq<Data>,
    types: Seq<TypeView>,
    data: Data,
) -> (end: Machine)
    requires
        o.done(s, machine, scope),
        s.code.values.len() < usize::MAX,
        gives_all(machine, operands, operand_data),
        semantics::produce(o.world, op, operand_data, scope.heap) == Some((data, scope.heap)),
    ensures
        follows(o, machine, s.value(op, operands, types).0, end, scope),
        laws::holds(end, s.next(), data),
{
    let end = emit_result(
        o,
        s,
        machine,
        scope,
        op,
        operands,
        operand_data,
        types,
        data,
        scope.heap,
    );
    assert((Scope { heap: scope.heap, ..scope }) == scope);
    end
}

/// One more instruction without results.
proof fn emit_effect(
    o: Origin,
    s: LowerState,
    machine: Machine,
    scope: Scope,
    op: Opcode,
    operands: Seq<ValueId>,
    operand_data: Seq<Data>,
    heap: Heap,
) -> (end: Machine)
    requires
        o.done(s, machine, scope),
        gives_all(machine, operands, operand_data),
        semantics::affect(o.world, op, operand_data, scope.heap) == Some(heap),
    ensures
        follows(o, machine, s.emit(op, operands, seq![], 0), end, Scope { heap, ..scope }),
{
    assert(semantics::operand_data(machine.held, operands) =~= operand_data);
    lemma_agrees_heap(s, machine, scope);
    execution::lemma_runs_effect(o.world, o.before, o.start, s, machine, op, operands, heap);
    let end = Machine { heap, ..machine };
    let after = s.emit(op, operands, seq![], 0);
    lemma_agrees_still(s, machine, scope, after, end, Scope { heap, ..scope });
    end
}

/// One more assertion, which holds.
proof fn emit_assertion(
    o: Origin,
    s: LowerState,
    machine: Machine,
    scope: Scope,
    op: Opcode,
    operands: Seq<ValueId>,
    operand_data: Seq<Data>,
) -> (end: Machine)
    requires
        o.done(s, machine, scope),
        gives_all(machine, operands, operand_data),
        semantics::affect(o.world, op, operand_data, scope.heap) == Some(scope.heap),
    ensures
        follows(o, machine, s.emit(op, operands, seq![], 0), end, scope),
{
    let end = emit_effect(o, s, machine, scope, op, operands, operand_data, scope.heap);
    assert((Scope { heap: scope.heap, ..scope }) == scope);
    end
}

/// One more assertion that two values are equal, which holds.
proof fn emit_equality(
    o: Origin,
    s: LowerState,
    machine: Machine,
    scope: Scope,
    a: ValueId,
    b: ValueId,
    data: Data,
) -> (end: Machine)
    requires
        o.done(s, machine, scope),
        laws::holds(machine, a, data),
        laws::holds(machine, b, data),
    ensures
        follows(o, machine, s.emit(Opcode::AssertEq, seq![a, b], seq![], 0), end, scope),
{
    emit_assertion(o, s, machine, scope, Opcode::AssertEq, seq![a, b], seq![data, data])
}

/// One more instruction whose result the world decides on.
pub proof fn emit_world_value(
    o: Origin,
    s: LowerState,
    machine: Machine,
    scope: Scope,
    op: Opcode,
    operands: Seq<ValueId>,
    operand_data: Seq<Data>,
    types: Seq<TypeView>,
) -> (end: Machine)
    requires
        o.done(s, machine, scope),
        s.code.values.len() < usize::MAX,
        gives_all(machine, operands, operand_data),
        !(op is Alloc) && !(op is Load) && !semantics::is_computation(op),
        meaning::world_value(o.world, scope, op, operand_data) is Some,
    ensures
        ({
            let (last, value) = meaning::world_value(o.world, scope, op, operand_data)->0;
            &&& follows(o, machine, s.value(op, operands, types).0, end, last)
            &&& gives(end, Some(s.next()), value)
        }),
{
    let (data, heap) = (o.world.result)(op, operand_data, scope.heap)->0;
    emit_result(o, s, machine, scope, op, operands, operand_data, types, data, heap)
}

/// One more call, with a result or without.
proof fn emit_call(
    o: Origin,
    s: LowerState,
    machine: Machine,
    scope: Scope,
    op: Opcode,
    operands: Seq<ValueId>,
    operand_data: Seq<Data>,
    return_type: ast::Type,
) -> (end: Machine)
    requires
        o.done(s, machine, scope),
        op is Call || op is CallIndirect,
        gives_all(machine, operands, operand_data),
        meaning::world_call(o.world, scope, op, operand_data, return_type) is Some,
        model::lower_call_to(s, op, operands, return_type).0.code.values.len() <= usize::MAX,
    ensures
        ({
            let (after, result) = model::lower_call_to(s, op, operands, return_type);
            let (last, value) = meaning::world_call(
                o.world,
                scope,
                op,
                operand_data,
                return_type,
            )->0;
            &&& follows(o, machine, after, end, last)
            &&& gives(end, result, value)
        }),
{
    if return_type is Unit {
        let heap = (o.world.effect)(op, operand_data, scope.heap)->0;
        emit_effect(o, s, machine, scope, op, operands, operand_data, heap)
    } else {
        emit_world_value(o, s, machine, scope, op, operands, operand_data, seq![])
    }
}

/// One more constant.
pub proof fn emit_constant(
    o: Origin,
    s: LowerState,
    machine: Machine,
    scope: Scope,
    constant: ConstantView,
) -> (end: Machine)
    requires
        o.done(s, machine, scope),
        s.code.values.len() < usize::MAX,
    ensures
        follows(o, machine, s.constant(constant), end, scope),
        laws::holds(end, s.next(), execution::constant_data(constant)),
{
    execution::lemma_runs_constant(o.world, o.before, o.start, s, machine, constant);
    let data = execution::constant_data(constant);
    let end = execution::with_value(machine, s.next(), data, machine.heap);
    lemma_agrees_heap(s, machine, scope);
    lemma_agrees_still(s, machine, scope, s.constant(constant), end, scope);
    end
}

/// Several constants.
proof fn emit_constants(
    o: Origin,
    s: LowerState,
    machine: Machine,
    scope: Scope,
    constants: Seq<ConstantView>,
) -> (end: Machine)
    requires
        o.done(s, machine, scope),
        model::lower_constants(s, constants).0.code.values.len() <= usize::MAX,
    ensures
        ({
            let (after, values) = model::lower_constants(s, constants);
            &&& follows(o, machine, after, end, scope)
            &&& values.len() == constants.len()
            &&& forall|i: int|
                0 <= i < values.len() ==> laws::holds(
                    end,
                    #[trigger] values[i],
                    execution::constant_data(constants[i]),
                )
        }),
    decreases constants.len(),
{
    lemma_agrees_heap(s, machine, scope);
    if constants.len() == 0 {
        machine
    } else {
        let fewer = constants.drop_last();
        let (s1, values) = model::lower_constants(s, fewer);
        let middle = emit_constants(o, s, machine, scope, fewer);
        let end = emit_constant(o, s1, middle, scope, constants.last());
        let (_, all) = model::lower_constants(s, constants);
        assert forall|i: int| 0 <= i < all.len() implies laws::holds(
            end,
            #[trigger] all[i],
            execution::constant_data(constants[i]),
        ) by {
            if i < fewer.len() {
                assert(all[i] == values[i]);
                assert(fewer[i] == constants[i]);
            }
        }
        end
    }
}

/// An array of constants.
proof fn emit_constant_array(
    o: Origin,
    s: LowerState,
    machine: Machine,
    scope: Scope,
    constants: Seq<ConstantView>,
    typ: TypeView,
    parts: Seq<Data>,
) -> (end: Machine)
    requires
        o.done(s, machine, scope),
        model::lower_constant_array(s, constants, typ).0.code.values.len() <= usize::MAX,
        parts.len() == constants.len(),
        forall|i: int|
            0 <= i < parts.len() ==> execution::constant_data(#[trigger] constants[i]) == parts[i],
    ensures
        ({
            let (after, result) = model::lower_constant_array(s, constants, typ);
            &&& follows(o, machine, after, end, scope)
            &&& laws::holds(end, result, Data::Parts(parts))
        }),
{
    let (s1, values) = model::lower_constants(s, constants);
    let middle = emit_constants(o, s, machine, scope, constants);
    assert(gives_all(middle, values, parts));
    let op = Opcode::MkSeq(SequenceTargetType::Array(constants.len() as usize));
    emit_value(o, s1, middle, scope, op, values, parts, seq![typ], Data::Parts(parts))
}

/// A fresh pointer through which a value is written.
proof fn emit_pointer_to(
    o: Origin,
    s: LowerState,
    machine: Machine,
    scope: Scope,
    value: ValueId,
    data: Data,
    typ: TypeView,
) -> (end: Machine)
    requires
        o.done(s, machine, scope),
        s.code.values.len() < usize::MAX,
        laws::holds(machine, value, data),
    ensures
        ({
            let (s1, pointer) = s.value(Opcode::Alloc, seq![], seq![typ]);
            let after = s1.emit(Opcode::Store, seq![pointer, value], seq![], 0);
            let (last, address) = scope.allocate(data);
            &&& follows(o, machine, after, end, last)
            &&& laws::holds(end, pointer, address)
        }),
{
    let (s1, pointer) = s.value(Opcode::Alloc, seq![], seq![typ]);
    let (last, address) = scope.allocate(data);
    let fresh = scope.heap.push(None);
    let middle = emit_result(
        o,
        s,
        machine,
        scope,
        Opcode::Alloc,
        seq![],
        seq![],
        seq![typ],
        address,
        fresh,
    );
    let inside = Scope { heap: fresh, ..scope };
    let operands = seq![pointer, value];
    let both = seq![address, data];
    let heap = fresh.update(scope.heap.len() as int, Some(data));
    assert(heap =~= last.heap);
    let end = emit_effect(o, s1, middle, inside, Opcode::Store, operands, both, heap);
    assert((Scope { heap, ..inside }) == last);
    end
}

/// A reference followed, if there is one.
proof fn emit_follow(
    o: Origin,
    s: LowerState,
    machine: Machine,
    scope: Scope,
    value: ValueId,
    data: Data,
    typ: Option<ast::Type>,
    target: Data,
) -> (end: Machine)
    requires
        o.done(s, machine, scope),
        s.load_reference(value, typ).0.code.values.len() <= usize::MAX,
        laws::holds(machine, value, data),
        meaning::followed(data, typ, scope.heap) == Some(target),
    ensures
        ({
            let (after, result) = s.load_reference(value, typ);
            &&& follows(o, machine, after, end, scope)
            &&& laws::holds(end, result, target)
        }),
{
    lemma_agrees_heap(s, machine, scope);
    match typ {
        Some(ast::Type::Reference(_, _)) => emit_value(
            o,
            s,
            machine,
            scope,
            Opcode::Load,
            seq![value],
            seq![data],
            seq![],
            target,
        ),
        _ => machine,
    }
}

/// An expression.
#[verifier::spinoff_prover]
pub proof fn lemma_means(
    o: Origin,
    s: LowerState,
    machine: Machine,
    scope: Scope,
    e: Expression,
) -> (end: Machine)
    requires
        o.done(s, machine, scope),
        meaning::meaning(o.env, o.world, scope, e) is Some,
        model::lower(o.env, s, e) matches Some((after, _)) && after.code.values.len()
            <= usize::MAX,
    ensures
        ({
            let (after, result) = model::lower(o.env, s, e)->0;
            let (last, value) = meaning::meaning(o.env, o.world, scope, e)->0;
            &&& follows(o, machine, after, end, last)
            &&& gives(end, result, value)
        }),
    decreases e, 1nat,
{
    lemma_agrees_heap(s, machine, scope);
    match e.kind {
        ExpressionKind::Ident(ident) => lemma_means_ident(o, s, machine, scope, ident),
        ExpressionKind::Literal(literal) => lemma_means_literal(o, s, machine, scope, literal),
        ExpressionKind::Block(exprs) => {
            lemma_means_block(o, s, machine, scope, exprs@, exprs@.len())
        },
        ExpressionKind::Tuple(exprs) => lemma_means_tuple(o, s, machine, scope, exprs),
        ExpressionKind::Unary(unary) => lemma_means_unary(o, s, machine, scope, unary),
        ExpressionKind::Binary(binary) => lemma_means_binary(o, s, machine, scope, binary),
        ExpressionKind::Index(index) => lemma_means_index(o, s, machine, scope, index),
        ExpressionKind::ExtractTupleField(tuple, field) => {
            lemma_means_extract(o, s, machine, scope, *tuple, field)
        },
        ExpressionKind::Cast(cast) => lemma_means_cast(o, s, machine, scope, cast),
        ExpressionKind::If(if_expr) => lemma_means_if(o, s, machine, scope, if_expr),
        ExpressionKind::Let(binding) => lemma_means_let(o, s, machine, scope, binding),
        ExpressionKind::Constrain(inner) => lemma_means_constrain(o, s, machine, scope, *inner),
        ExpressionKind::Assign(assign) => lemma_means_assign(o, s, machine, scope, assign),
        ExpressionKind::Call(call) => lemma_means_call(o, s, machine, scope, call),
        ExpressionKind::Semi(inner) => lemma_means(o, s, machine, scope, *inner),
        ExpressionKind::Clone(inner) => lemma_means(o, s, machine, scope, *inner),
        _ => machine,
    }
}

/// An expression whose value is needed.
pub proof fn lemma_means_value(
    o: Origin,
    s: LowerState,
    machine: Machine,
    scope: Scope,
    e: Expression,
) -> (end: Machine)
    requires
        o.done(s, machine, scope),
        meaning::value_meaning(o.env, o.world, scope, e) is Some,
        model::lower_value(o.env, s, e) matches Some((after, _)) && after.code.values.len()
            <= usize::MAX,
    ensures
        ({
            let (after, result) = model::lower_value(o.env, s, e)->0;
            let (last, data) = meaning::value_meaning(o.env, o.world, scope, e)->0;
            &&& follows(o, machine, after, end, last)
            &&& laws::holds(end, result, data)
        }),
    decreases e, 2nat,
{
    lemma_means(o, s, machine, scope, e)
}

/// Several expressions whose values are needed.
proof fn lemma_means_values(
    o: Origin,
    s: LowerState,
    machine: Machine,
    scope: Scope,
    exprs: Seq<Expression>,
    n: nat,
) -> (end: Machine)
    requires
        o.done(s, machine, scope),
        meaning::values_meaning(o.env, o.world, scope, exprs, n) is Some,
        model::lower_values(o.env, s, exprs, n) matches Some((after, _)) && after.code.values.len()
            <= usize::MAX,
    ensures
        ({
            let (after, values) = model::lower_values(o.env, s, exprs, n)->0;
            let (last, data) = meaning::values_meaning(o.env, o.world, scope, exprs, n)->0;
            &&& follows(o, machine, after, end, last)
            &&& values.len() == n
            &&& gives_all(end, values, data)
        }),
    decreases exprs, n,
{
    lemma_agrees_heap(s, machine, scope);
    if n == 0 {
        machine
    } else {
        let m = (n - 1) as nat;
        let (s1, values) = model::lower_values(o.env, s, exprs, m)->0;
        let (scope1, data) = meaning::values_meaning(o.env, o.world, scope, exprs, m)->0;
        let (_, v) = model::lower_value(o.env, s1, exprs[n - 1])->0;
        let (_, d) = meaning::value_meaning(o.env, o.world, scope1, exprs[n - 1])->0;
        growth::lemma_value_grows(o.env, s1, exprs[n - 1]);
        let middle = lemma_means_values(o, s, machine, scope, exprs, m);
        let end = lemma_means_value(o, s1, middle, scope1, exprs[n - 1]);
        let (_, all) = model::lower_values(o.env, s, exprs, n)->0;
        let (_, all_data) = meaning::values_meaning(o.env, o.world, scope, exprs, n)->0;
        assert(all == values.push(v));
        assert(all_data == data.push(d));
        assert forall|i: int| 0 <= i < n implies laws::holds(
            end,
            #[trigger] all[i],
            all_data[i],
        ) by {
            if i < n - 1 {
                assert(all[i] == values[i]);
            }
        }
        end
    }
}

/// A block.
proof fn lemma_means_block(
    o: Origin,
    s: LowerState,
    machine: Machine,
    scope: Scope,
    exprs: Seq<Expression>,
    n: nat,
) -> (end: Machine)
    requires
        o.done(s, machine, scope),
        meaning::block_meaning(o.env, o.world, scope, exprs, n) is Some,
        model::lower_block(o.env, s, exprs, n) matches Some((after, _)) && after.code.values.len()
            <= usize::MAX,
    ensures
        ({
            let (after, result) = model::lower_block(o.env, s, exprs, n)->0;
            let (last, value) = meaning::block_meaning(o.env, o.world, scope, exprs, n)->0;
            &&& follows(o, machine, after, end, last)
            &&& gives(end, result, value)
        }),
    decreases exprs, n,
{
    lemma_agrees_heap(s, machine, scope);
    if n == 0 {
        machine
    } else {
        let m = (n - 1) as nat;
        let (s1, _) = model::lower_block(o.env, s, exprs, m)->0;
        let (scope1, _) = meaning::block_meaning(o.env, o.world, scope, exprs, m)->0;
        growth::lemma_lower_grows(o.env, s1, exprs[n - 1]);
        let middle = lemma_means_block(o, s, machine, scope, exprs, m);
        lemma_means(o, s1, middle, scope1, exprs[n - 1])
    }
}

/// A tuple.
proof fn lemma_means_tuple(
    o: Origin,
    s: LowerState,
    machine: Machine,
    scope: Scope,
    exprs: Vec<Expression>,
) -> (end: Machine)
    requires
        o.done(s, machine, scope),
        meaning::tuple_meaning(o.env, o.world, scope, exprs@) is Some,
        model::lower_tuple(o.env, s, exprs) matches Some((after, _)) && after.code.values.len()
            <= usize::MAX,
    ensures
        ({
            let (after, result) = model::lower_tuple(o.env, s, exprs)->0;
            let (last, value) = meaning::tuple_meaning(o.env, o.world, scope, exprs@)->0;
            &&& follows(o, machine, after, end, last)
            &&& gives(end, result, value)
        }),
    decreases exprs, 0nat,
{
    let n = exprs@.len();
    let (s1, values) = model::lower_values(o.env, s, exprs@, n)->0;
    let (scope1, data) = meaning::values_meaning(o.env, o.world, scope, exprs@, n)->0;
    let middle = lemma_means_values(o, s, machine, scope, exprs@, n);
    let types = model::field_types(exprs@);
    emit_value(o, s1, middle, scope1, Opcode::MkTuple, values, data, types, Data::Parts(data))
}

/// An array or a vector.
proof fn lemma_means_array(
    o: Origin,
    s: LowerState,
    machine: Machine,
    scope: Scope,
    array: ArrayLiteral,
) -> (end: Machine)
    requires
        o.done(s, machine, scope),
        meaning::tuple_meaning(o.env, o.world, scope, array.contents@) is Some,
        model::lower_array(o.env, s, array) matches Some((after, _)) && after.code.values.len()
            <= usize::MAX,
    ensures
        ({
            let (after, result) = model::lower_array(o.env, s, array)->0;
            let (last, value) = meaning::tuple_meaning(o.env, o.world, scope, array.contents@)->0;
            &&& follows(o, machine, after, end, last)
            &&& gives(end, result, value)
        }),
    decreases array, 0nat,
{
    let n = array.contents@.len();
    let (s1, values) = model::lower_values(o.env, s, array.contents@, n)->0;
    let (scope1, data) = meaning::values_meaning(o.env, o.world, scope, array.contents@, n)->0;
    let middle = lemma_means_values(o, s, machine, scope, array.contents@, n);
    let target = match array.typ {
        ast::Type::Array(len, _) => SequenceTargetType::Array(len as usize),
        _ => SequenceTargetType::Slice,
    };
    let types = seq![type_converter::ssa_type(model::element_type(array.typ)->0)];
    let op = Opcode::MkSeq(target);
    emit_value(o, s1, middle, scope1, op, values, data, types, Data::Parts(data))
}

/// A name.
proof fn lemma_means_ident(
    o: Origin,
    s: LowerState,
    machine: Machine,
    scope: Scope,
    ident: Ident,
) -> (end: Machine)
    requires
        o.done(s, machine, scope),
        meaning::ident_meaning(o.env, o.world, scope, ident) is Some,
        model::lower_ident(o.env, s, ident) matches Some((after, _)) && after.code.values.len()
            <= usize::MAX,
    ensures
        ({
            let (after, result) = model::lower_ident(o.env, s, ident)->0;
            let (last, value) = meaning::ident_meaning(o.env, o.world, scope, ident)->0;
            &&& follows(o, machine, after, end, last)
            &&& gives(end, result, value)
        }),
{
    lemma_agrees_heap(s, machine, scope);
    match ident.definition {
        Definition::Local(local) => {
            let data = scope.locals[local.0];
            let v = s.bindings[local.0];
            assert(s.mutable_locals.contains(local.0) == scope.mutable.contains(local.0)
                && laws::holds(machine, v, data)) by {
                reveal(agrees);
                assert(scope.locals.dom().contains(local.0));
            }
            if scope.mutable.contains(local.0) {
                let target = scope.read(local)->0;
                let op = Opcode::Load;
                emit_value(o, s, machine, scope, op, seq![v], seq![data], seq![], target)
            } else {
                machine
            }
        },
        Definition::Function(function) => {
            let constant = ConstantView::FnPtr(o.env.functions[function.0]);
            emit_constant(o, s, machine, scope, constant)
        },
        Definition::Global(global) => {
            let op = Opcode::ReadGlobal(o.env.global_slots[global.0] as u64);
            let types = seq![type_converter::ssa_type(ident.typ)];
            emit_world_value(o, s, machine, scope, op, seq![], seq![], types)
        },
        _ => machine,
    }
}

/// A format string: its text, and what it captures.
proof fn lemma_means_fmtstr(
    o: Origin,
    s: LowerState,
    machine: Machine,
    scope: Scope,
    literal: Literal,
    fragments: Vec<FmtStrFragment>,
    captures: Box<Expression>,
) -> (end: Machine)
    requires
        o.done(s, machine, scope),
        literal == Literal::FmtStr(fragments, captures),
        meaning::literal_meaning(o.env, o.world, scope, literal) is Some,
        model::lower_literal(o.env, s, literal) matches Some((after, _)) && after.code.values.len()
            <= usize::MAX,
    ensures
        ({
            let (after, result) = model::lower_literal(o.env, s, literal)->0;
            let (last, value) = meaning::literal_meaning(o.env, o.world, scope, literal)->0;
            &&& follows(o, machine, after, end, last)
            &&& gives(end, result, value)
        }),
    decreases literal, 0nat,
{
    let text = model::format_text(fragments@);
    let points = model::code_points(text);
    let data = meaning::text_data(text);
    let (s1, value) = model::lower_constant_array(s, points, TypeView::U(32));
    if let ExpressionKind::Tuple(exprs) = captures.kind {
        growth::lemma_values_grow(o.env, s1, exprs@, exprs@.len());
    }
    assert forall|i: int| 0 <= i < text.len() implies execution::constant_data(#[trigger] points[i])
        == data->Parts_0[i] by {
        assert(points[i] == ConstantView::U(32, text[i] as u128));
    }
    let parts = data->Parts_0;
    let first = emit_constant_array(o, s, machine, scope, points, TypeView::U(32), parts);
    let text_type = TypeView::Array(Box::new(TypeView::U(32)), points.len() as usize);
    match captures.kind {
        ExpressionKind::Tuple(exprs) => {
            let n = exprs@.len();
            let (s2, values) = model::lower_values(o.env, s1, exprs@, n)->0;
            let (scope1, more) = meaning::values_meaning(o.env, o.world, scope, exprs@, n)->0;
            let second = lemma_means_values(o, s1, first, scope, exprs@, n);
            let operands = seq![value] + values;
            let all = seq![data] + more;
            assert(gives_all(second, operands, all));
            let types = seq![text_type] + model::expr_types(exprs@);
            let op = Opcode::MkTuple;
            emit_value(o, s2, second, scope1, op, operands, all, types, Data::Parts(all))
        },
        _ => {
            let op = Opcode::MkTuple;
            let all = seq![data];
            let types = seq![text_type];
            emit_value(o, s1, first, scope, op, seq![value], all, types, Data::Parts(all))
        },
    }
}

/// A value repeated.
proof fn lemma_means_repeated(
    o: Origin,
    s: LowerState,
    machine: Machine,
    scope: Scope,
    literal: Literal,
    element: Box<Expression>,
    length: u32,
    is_vector: bool,
    typ: ast::Type,
) -> (end: Machine)
    requires
        o.done(s, machine, scope),
        literal == (Literal::Repeated { element, length, is_vector, typ }),
        meaning::literal_meaning(o.env, o.world, scope, literal) is Some,
        model::lower_literal(o.env, s, literal) matches Some((after, _)) && after.code.values.len()
            <= usize::MAX,
    ensures
        ({
            let (after, result) = model::lower_literal(o.env, s, literal)->0;
            let (last, value) = meaning::literal_meaning(o.env, o.world, scope, literal)->0;
            &&& follows(o, machine, after, end, last)
            &&& gives(end, result, value)
        }),
    decreases literal, 0nat,
{
    let (s1, value) = model::lower_value(o.env, s, *element)->0;
    let (scope1, data) = meaning::value_meaning(o.env, o.world, scope, *element)->0;
    let middle = lemma_means_value(o, s, machine, scope, *element);
    let target = if is_vector {
        SequenceTargetType::Slice
    } else {
        SequenceTargetType::Array(length as usize)
    };
    let op = Opcode::MkRepeated(target, length as usize);
    let types = seq![type_converter::ssa_type(model::element_type(typ)->0)];
    let parts = Seq::new(length as nat, |i: int| data);
    let operand_data = seq![data];
    assert(Seq::new((length as usize) as nat, |i: int| operand_data[0]) =~= parts);
    emit_value(
        o,
        s1,
        middle,
        scope1,
        op,
        seq![value],
        operand_data,
        types,
        Data::Parts(parts),
    )
}

/// A literal.
proof fn lemma_means_literal(
    o: Origin,
    s: LowerState,
    machine: Machine,
    scope: Scope,
    literal: Literal,
) -> (end: Machine)
    requires
        o.done(s, machine, scope),
        meaning::literal_meaning(o.env, o.world, scope, literal) is Some,
        model::lower_literal(o.env, s, literal) matches Some((after, _)) && after.code.values.len()
            <= usize::MAX,
    ensures
        ({
            let (after, result) = model::lower_literal(o.env, s, literal)->0;
            let (last, value) = meaning::literal_meaning(o.env, o.world, scope, literal)->0;
            &&& follows(o, machine, after, end, last)
            &&& gives(end, result, value)
        }),
    decreases literal, 1nat,
{
    lemma_agrees_heap(s, machine, scope);
    match literal {
        Literal::Bool(b) => {
            let constant = ConstantView::U(
                1,
                if b {
                    1
                } else {
                    0
                },
            );
            emit_constant(o, s, machine, scope, constant)
        },
        Literal::Integer(number, typ) => {
            emit_constant(o, s, machine, scope, model::integer_constant(number, typ)->0)
        },
        Literal::Array(array) => lemma_means_array(o, s, machine, scope, array),
        Literal::Vector(array) => lemma_means_array(o, s, machine, scope, array),
        Literal::Repeated { element, length, is_vector, typ } => {
            lemma_means_repeated(o, s, machine, scope, literal, element, length, is_vector, typ)
        },
        Literal::FmtStr(fragments, captures) => {
            lemma_means_fmtstr(o, s, machine, scope, literal, fragments, captures)
        },
        Literal::Str(text) => {
            let constants = model::utf8_bytes(text@);
            let parts = meaning::literal_data(literal)->0->Parts_0;
            emit_constant_array(o, s, machine, scope, constants, TypeView::U(8), parts)
        },
        Literal::Unit => machine,
    }
}

/// A unary operation.
proof fn lemma_means_unary(
    o: Origin,
    s: LowerState,
    machine: Machine,
    scope: Scope,
    unary: Unary,
) -> (end: Machine)
    requires
        o.done(s, machine, scope),
        meaning::unary_meaning(o.env, o.world, scope, unary) is Some,
        model::lower_unary(o.env, s, unary) matches Some((after, _)) && after.code.values.len()
            <= usize::MAX,
    ensures
        ({
            let (after, result) = model::lower_unary(o.env, s, unary)->0;
            let (last, value) = meaning::unary_meaning(o.env, o.world, scope, unary)->0;
            &&& follows(o, machine, after, end, last)
            &&& gives(end, result, value)
        }),
    decreases unary, 0nat,
{
    lemma_agrees_heap(s, machine, scope);
    assert(unary.operator is Reference && !unary.skip ==> model::mutable_local(s, *unary.rhs)
        == meaning::mutable_local(scope, *unary.rhs)) by {
        reveal(agrees);
        if let ExpressionKind::Ident(ident) = unary.rhs.kind {
            let direct = meaning::ident_meaning(o.env, o.world, scope, ident);
            assert(meaning::meaning(o.env, o.world, scope, *unary.rhs) == direct);
            assert(meaning::value_meaning(o.env, o.world, scope, *unary.rhs) is Some ==> direct
                is Some);
            if let Definition::Local(local) = ident.definition {
                assert(scope.locals.dom().contains(local.0) == scope.locals.contains_key(local.0));
            }
        }
    }
    if unary.skip {
        lemma_means(o, s, machine, scope, *unary.rhs)
    } else if unary.operator is Reference && meaning::mutable_local(scope, *unary.rhs) is Some {
        reveal(agrees);
        machine
    } else {
        let (s1, value) = model::lower_value(o.env, s, *unary.rhs)->0;
        let (scope1, data) = meaning::value_meaning(o.env, o.world, scope, *unary.rhs)->0;
        let middle = lemma_means_value(o, s, machine, scope, *unary.rhs);
        match unary.operator {
            UnaryOp::Reference => {
                let typ = type_converter::ssa_type(unary.rhs.return_type->0);
                emit_pointer_to(o, s1, middle, scope1, value, data, typ)
            },
            UnaryOp::Dereference => {
                let target = data.target(scope1.heap)->0;
                let op = Opcode::Load;
                emit_value(o, s1, middle, scope1, op, seq![value], seq![data], seq![], target)
            },
            UnaryOp::Not => {
                let opposite = semantics::negation(data)->0;
                let op = Opcode::Not;
                emit_value(o, s1, middle, scope1, op, seq![value], seq![data], seq![], opposite)
            },
            UnaryOp::Minus => {
                let constant = model::zero_constant(unary.rhs.return_type);
                let (s2, zero) = s1.constant_value(constant);
                let second = emit_constant(o, s1, middle, scope1, constant);
                let operand_data = seq![Data::Number(0), data];
                let op = Opcode::Binary(BinaryOp::Sub);
                let operands = seq![zero, value];
                emit_world_value(o, s2, second, scope1, op, operands, operand_data, seq![])
            },
        }
    }
}

/// An operator on two values.
proof fn lemma_means_operator(
    o: Origin,
    s: LowerState,
    machine: Machine,
    scope: Scope,
    operator: BinaryOpKind,
    a: ValueId,
    b: ValueId,
    x: Data,
    y: Data,
) -> (end: Machine)
    requires
        o.done(s, machine, scope),
        laws::holds(machine, a, x),
        laws::holds(machine, b, y),
        meaning::operator_meaning(o.world, scope, operator, x, y) is Some,
        model::lower_operator(s, operator, a, b).0.code.values.len() <= usize::MAX,
    ensures
        ({
            let (after, result) = model::lower_operator(s, operator, a, b);
            let (last, value) = meaning::operator_meaning(o.world, scope, operator, x, y)->0;
            &&& follows(o, machine, after, end, last)
            &&& gives(end, Some(result), value)
        }),
{
    match meaning::arithmetic(operator) {
        Some(op) => {
            let op = Opcode::Binary(op);
            emit_world_value(o, s, machine, scope, op, seq![a, b], seq![x, y], seq![])
        },
        None => {
            let (after, _) = model::lower_operator(s, operator, a, b);
            let end = laws::lemma_runs_comparison(
                o.world,
                o.before,
                o.start,
                s,
                machine,
                operator,
                a,
                b,
                x->Number_0,
                y->Number_0,
            );
            lemma_agrees_heap(s, machine, scope);
            lemma_agrees_still(s, machine, scope, after, end, scope);
            end
        },
    }
}

/// A binary operation.
proof fn lemma_means_binary(
    o: Origin,
    s: LowerState,
    machine: Machine,
    scope: Scope,
    binary: Binary,
) -> (end: Machine)
    requires
        o.done(s, machine, scope),
        meaning::binary_meaning(o.env, o.world, scope, binary) is Some,
        model::lower_binary(o.env, s, binary) matches Some((after, _)) && after.code.values.len()
            <= usize::MAX,
    ensures
        ({
            let (after, result) = model::lower_binary(o.env, s, binary)->0;
            let (last, value) = meaning::binary_meaning(o.env, o.world, scope, binary)->0;
            &&& follows(o, machine, after, end, last)
            &&& gives(end, result, value)
        }),
    decreases binary, 0nat,
{
    let (s1, a) = model::lower_value(o.env, s, *binary.lhs)->0;
    let (scope1, x) = meaning::value_meaning(o.env, o.world, scope, *binary.lhs)->0;
    let (s2, b) = model::lower_value(o.env, s1, *binary.rhs)->0;
    let (scope2, y) = meaning::value_meaning(o.env, o.world, scope1, *binary.rhs)->0;
    growth::lemma_value_grows(o.env, s1, *binary.rhs);
    let middle = lemma_means_value(o, s, machine, scope, *binary.lhs);
    let last = lemma_means_value(o, s1, middle, scope1, *binary.rhs);
    lemma_means_operator(o, s2, last, scope2, binary.operator, a, b, x, y)
}

/// An element at an index.
#[verifier::spinoff_prover]
proof fn lemma_means_index(
    o: Origin,
    s: LowerState,
    machine: Machine,
    scope: Scope,
    index: Index,
) -> (end: Machine)
    requires
        o.done(s, machine, scope),
        meaning::index_meaning(o.env, o.world, scope, index) is Some,
        model::lower_index(o.env, s, index) matches Some((after, _)) && after.code.values.len()
            <= usize::MAX,
    ensures
        ({
            let (after, result) = model::lower_index(o.env, s, index)->0;
            let (last, value) = meaning::index_meaning(o.env, o.world, scope, index)->0;
            &&& follows(o, machine, after, end, last)
            &&& gives(end, result, value)
        }),
    decreases index, 0nat,
{
    let typ = index.collection.return_type;
    let (s1, collection) = model::lower_value(o.env, s, *index.collection)->0;
    let (scope1, data) = meaning::value_meaning(o.env, o.world, scope, *index.collection)->0;
    let (s2, array) = s1.load_reference(collection, typ);
    let whole = meaning::followed(data, typ, scope1.heap)->0;
    let (s3, position) = model::lower_value(o.env, s2, *index.index)->0;
    let (scope3, at) = meaning::value_meaning(o.env, o.world, scope1, *index.index)->0;
    growth::lemma_value_grows(o.env, s2, *index.index);
    let first = lemma_means_value(o, s, machine, scope, *index.collection);
    let second = emit_follow(o, s1, first, scope1, collection, data, typ, whole);
    let third = lemma_means_value(o, s2, second, scope1, *index.index);
    let part = whole.part(at->Number_0)->0;
    let op = Opcode::ArrayGet;
    emit_value(o, s3, third, scope3, op, seq![array, position], seq![whole, at], seq![], part)
}

/// A field of a tuple.
proof fn lemma_means_extract(
    o: Origin,
    s: LowerState,
    machine: Machine,
    scope: Scope,
    tuple_expr: Expression,
    field: usize,
) -> (end: Machine)
    requires
        o.done(s, machine, scope),
        meaning::extract_meaning(o.env, o.world, scope, tuple_expr, field) is Some,
        model::lower_extract(o.env, s, tuple_expr, field) matches Some((after, _)) && after.code.values.len()
            <= usize::MAX,
    ensures
        ({
            let (after, result) = model::lower_extract(o.env, s, tuple_expr, field)->0;
            let (last, value) = meaning::extract_meaning(o.env, o.world, scope, tuple_expr, field)->0;
            &&& follows(o, machine, after, end, last)
            &&& gives(end, result, value)
        }),
    decreases tuple_expr, 3nat,
{
    let typ = tuple_expr.return_type;
    let (s1, value) = model::lower_value(o.env, s, tuple_expr)->0;
    let (scope1, data) = meaning::value_meaning(o.env, o.world, scope, tuple_expr)->0;
    let (s2, tuple) = s1.load_reference(value, typ);
    let whole = meaning::followed(data, typ, scope1.heap)->0;
    let first = lemma_means_value(o, s, machine, scope, tuple_expr);
    let second = emit_follow(o, s1, first, scope1, value, data, typ, whole);
    let part = whole.part(field as int)->0;
    let op = Opcode::TupleProj(field);
    emit_value(o, s2, second, scope1, op, seq![tuple], seq![whole], seq![], part)
}

/// A cast.
proof fn lemma_means_cast(
    o: Origin,
    s: LowerState,
    machine: Machine,
    scope: Scope,
    cast: Cast,
) -> (end: Machine)
    requires
        o.done(s, machine, scope),
        meaning::cast_meaning(o.env, o.world, scope, cast) is Some,
        model::lower_cast(o.env, s, cast) matches Some((after, _)) && after.code.values.len()
            <= usize::MAX,
    ensures
        ({
            let (after, result) = model::lower_cast(o.env, s, cast)->0;
            let (last, value) = meaning::cast_meaning(o.env, o.world, scope, cast)->0;
            &&& follows(o, machine, after, end, last)
            &&& gives(end, result, value)
        }),
    decreases cast, 0nat,
{
    let (s1, value) = model::lower_value(o.env, s, *cast.lhs)->0;
    let (scope1, data) = meaning::value_meaning(o.env, o.world, scope, *cast.lhs)->0;
    let source = model::cast_source(cast.lhs.return_type);
    let target = model::cast_target(cast.typ)->0;
    let (after, _) = model::lower_cast_value(s1, value, source, target);
    let middle = lemma_means_value(o, s, machine, scope, *cast.lhs);
    let end = laws::lemma_runs_cast(
        o.world,
        o.before,
        o.start,
        s1,
        middle,
        value,
        source,
        target,
        data->Number_0,
    );
    lemma_agrees_still(s1, middle, scope1, after, end, scope1);
    end
}

/// A condition that is known.
proof fn lemma_means_if(
    o: Origin,
    s: LowerState,
    machine: Machine,
    scope: Scope,
    if_expr: If,
) -> (end: Machine)
    requires
        o.done(s, machine, scope),
        meaning::if_meaning(o.env, o.world, scope, if_expr) is Some,
        model::lower_if(o.env, s, if_expr) matches Some((after, _)) && after.code.values.len()
            <= usize::MAX,
    ensures
        ({
            let (after, result) = model::lower_if(o.env, s, if_expr)->0;
            let (last, value) = meaning::if_meaning(o.env, o.world, scope, if_expr)->0;
            &&& follows(o, machine, after, end, last)
            &&& gives(end, result, value)
        }),
    decreases if_expr, 0nat,
{
    lemma_agrees_heap(s, machine, scope);
    laws::law_decided_conditions_have_that_truth_value(
        o.env,
        o.world,
        scope,
        *if_expr.condition,
    );
    match (model::const_bool(o.env, *if_expr.condition), if_expr.alternative) {
        (Some(true), _) => lemma_means(o, s, machine, scope, *if_expr.consequence),
        (_, Some(alternative)) => lemma_means(o, s, machine, scope, *alternative),
        _ => machine,
    }
}

/// A variable bound.
proof fn lemma_bound(
    o: Origin,
    s: LowerState,
    machine: Machine,
    scope: Scope,
    after: LowerState,
    last: Scope,
    local: u32,
    value: ValueId,
    data: Data,
)
    requires
        o.done(s, machine, scope),
        laws::holds(machine, value, data),
        after.code == s.code,
        after.current == s.current,
        after.bindings == s.bindings.insert(local, value),
        last.locals == scope.locals.insert(local, data),
        last.heap == scope.heap,
        last.hidden == scope.hidden,
        !scope.hidden.contains(local),
        after.mutable_locals == s.mutable_locals && last.mutable == scope.mutable && !scope.mutable.contains(local)
            || after.mutable_locals == s.mutable_locals.insert(local) && last.mutable
            == scope.mutable.insert(local),
    ensures
        o.done(after, machine, last),
        machine.heap == last.heap,
{
    reveal(agrees);
    execution::lemma_runs_scope(o.world, o.before, o.start, s, machine, after);
    assert(last.hidden.disjoint(last.locals.dom())) by {
        assert forall|x: u32| last.hidden.contains(x) implies !last.locals.dom().contains(x) by {
            assert(!scope.locals.dom().contains(x));
        }
    }
}

/// A variable bound to a value.
pub proof fn lemma_let_bound(
    o: Origin,
    s: LowerState,
    machine: Machine,
    scope: Scope,
    binding: Let,
    result: Option<ValueId>,
    value: Option<Data>,
) -> (end: Machine)
    requires
        o.done(s, machine, scope),
        gives(machine, result, value),
        meaning::let_bound(binding, scope, value) is Some,
        model::let_bound(s, binding, result) matches Some(after) && after.code.values.len()
            <= usize::MAX,
    ensures
        follows(
            o,
            machine,
            model::let_bound(s, binding, result)->0,
            end,
            meaning::let_bound(binding, scope, value)->0,
        ),
{
    lemma_agrees_heap(s, machine, scope);
    let (s2, v, data, bound) = match (result, value) {
        (Some(v), Some(data)) => (s, v, data, machine),
        _ => {
            let data = Data::Parts(seq![]);
            let (s2, v) = s.value(Opcode::MkTuple, seq![], seq![]);
            let op = Opcode::MkTuple;
            let bound = emit_value(o, s, machine, scope, op, seq![], seq![], seq![], data);
            (s2, v, data, bound)
        },
    };
    let local = binding.id.0;
    if binding.mutable {
        let typ = type_converter::ssa_type(binding.expression.return_type->0);
        let (s3, pointer) = s2.value(Opcode::Alloc, seq![], seq![typ]);
        let s4 = s3.emit(Opcode::Store, seq![pointer, v], seq![], 0);
        let (scope4, address) = scope.allocate(data);
        let end = emit_pointer_to(o, s2, bound, scope, v, data, typ);
        let after = s2.bind_mut(binding.id, v, typ);
        let last = scope.bind_mut(binding.id, data);
        lemma_bound(o, s4, end, scope4, after, last, local, pointer, address);
        end
    } else {
        let after = s2.bind(binding.id, v);
        let last = scope.bind(binding.id, data);
        lemma_bound(o, s2, bound, scope, after, last, local, v, data);
        bound
    }
}

/// A variable bound to what an expression gives.
proof fn lemma_means_let(
    o: Origin,
    s: LowerState,
    machine: Machine,
    scope: Scope,
    binding: Let,
) -> (end: Machine)
    requires
        o.done(s, machine, scope),
        meaning::let_meaning(o.env, o.world, scope, binding) is Some,
        model::lower_let(o.env, s, binding) matches Some((after, _)) && after.code.values.len()
            <= usize::MAX,
    ensures
        ({
            let (after, result) = model::lower_let(o.env, s, binding)->0;
            let (last, value) = meaning::let_meaning(o.env, o.world, scope, binding)->0;
            &&& follows(o, machine, after, end, last)
            &&& gives(end, result, value)
        }),
    decreases binding, 0nat,
{
    let (s1, result) = model::lower(o.env, s, *binding.expression)->0;
    let (scope1, value) = meaning::meaning(o.env, o.world, scope, *binding.expression)->0;
    let middle = lemma_means(o, s, machine, scope, *binding.expression);
    lemma_let_bound(o, s1, middle, scope1, binding, result, value)
}

/// An assertion.
proof fn lemma_means_constrain(
    o: Origin,
    s: LowerState,
    machine: Machine,
    scope: Scope,
    inner: Expression,
) -> (end: Machine)
    requires
        o.done(s, machine, scope),
        meaning::constrain_meaning(o.env, o.world, scope, inner) is Some,
        model::lower_constrain(o.env, s, inner) matches Some((after, _)) && after.code.values.len()
            <= usize::MAX,
    ensures
        ({
            let (after, result) = model::lower_constrain(o.env, s, inner)->0;
            let (last, value) = meaning::constrain_meaning(o.env, o.world, scope, inner)->0;
            &&& follows(o, machine, after, end, last)
            &&& gives(end, result, value)
        }),
    decreases inner, 3nat,
{
    let (s1, value) = model::lower_value(o.env, s, inner)->0;
    let (scope1, data) = meaning::value_meaning(o.env, o.world, scope, inner)->0;
    let middle = lemma_means_value(o, s, machine, scope, inner);
    emit_assertion(o, s1, middle, scope1, Opcode::AssertBool, seq![value], seq![data])
}

/// A call.
proof fn lemma_means_call(
    o: Origin,
    s: LowerState,
    machine: Machine,
    scope: Scope,
    call: Call,
) -> (end: Machine)
    requires
        o.done(s, machine, scope),
        meaning::call_meaning(o.env, o.world, scope, call) is Some,
        model::lower_call(o.env, s, call) matches Some((after, _)) && after.code.values.len()
            <= usize::MAX,
    ensures
        ({
            let (after, result) = model::lower_call(o.env, s, call)->0;
            let (last, value) = meaning::call_meaning(o.env, o.world, scope, call)->0;
            &&& follows(o, machine, after, end, last)
            &&& gives(end, result, value)
        }),
    decreases call, 4nat,
{
    lemma_agrees_heap(s, machine, scope);
    match call.func.kind {
        ExpressionKind::Ident(ident) => match ident.definition {
            Definition::Function(function) => {
                lemma_means_static_call(o, s, machine, scope, function, call)
            },
            Definition::Builtin(name) => lemma_means_builtin(o, s, machine, scope, name@, call),
            Definition::LowLevel(name) => lemma_means_lowlevel(o, s, machine, scope, name@, call),
            _ => machine,
        },
        _ => {
            let n = call.arguments@.len();
            let (s1, args) = model::lower_values(o.env, s, call.arguments@, n)->0;
            let (scope1, data) = meaning::values_meaning(
                o.env,
                o.world,
                scope,
                call.arguments@,
                n,
            )->0;
            let (s2, pointer) = model::lower_value(o.env, s1, *call.func)->0;
            let (scope2, function) = meaning::value_meaning(
                o.env,
                o.world,
                scope1,
                *call.func,
            )->0;
            growth::lemma_value_grows(o.env, s1, *call.func);
            let first = lemma_means_values(o, s, machine, scope, call.arguments@, n);
            let second = lemma_means_value(o, s1, first, scope1, *call.func);
            let operands = seq![pointer] + args;
            let all = seq![function] + data;
            assert(gives_all(second, operands, all));
            let op = Opcode::CallIndirect;
            emit_call(o, s2, second, scope2, op, operands, all, call.return_type)
        },
    }
}

/// A call of a function.
proof fn lemma_means_static_call(
    o: Origin,
    s: LowerState,
    machine: Machine,
    scope: Scope,
    function: FuncId,
    call: Call,
) -> (end: Machine)
    requires
        o.done(s, machine, scope),
        meaning::static_call_meaning(o.env, o.world, scope, function, call) is Some,
        model::lower_static_call(o.env, s, function, call) matches Some((after, _)) && after.code.values.len()
            <= usize::MAX,
    ensures
        ({
            let (after, result) = model::lower_static_call(o.env, s, function, call)->0;
            let (last, value) = meaning::static_call_meaning(o.env, o.world, scope, function, call)->0;
            &&& follows(o, machine, after, end, last)
            &&& gives(end, result, value)
        }),
    decreases call, 0nat,
{
    let n = call.arguments@.len();
    let (s1, args) = model::lower_values(o.env, s, call.arguments@, n)->0;
    let (scope1, data) = meaning::values_meaning(o.env, o.world, scope, call.arguments@, n)->0;
    let first = lemma_means_values(o, s, machine, scope, call.arguments@, n);
    let op = meaning::call_opcode(o.env, function);
    emit_call(o, s1, first, scope1, op, args, data, call.return_type)
}

/// The first argument of a call.
proof fn lemma_means_first(
    o: Origin,
    s: LowerState,
    machine: Machine,
    scope: Scope,
    call: Call,
) -> (end: Machine)
    requires
        o.done(s, machine, scope),
        meaning::first_meaning(o.env, o.world, scope, call) is Some,
        model::lower_first(o.env, s, call) matches Some((after, _)) && after.code.values.len()
            <= usize::MAX,
    ensures
        ({
            let (after, result) = model::lower_first(o.env, s, call)->0;
            let (last, value) = meaning::first_meaning(o.env, o.world, scope, call)->0;
            &&& follows(o, machine, after, end, last)
            &&& laws::holds(end, result, value)
        }),
    decreases call, 0nat,
{
    lemma_means_value(o, s, machine, scope, call.arguments@[0])
}

/// The first two arguments of a call.
#[verifier::spinoff_prover]
proof fn lemma_means_first_two(
    o: Origin,
    s: LowerState,
    machine: Machine,
    scope: Scope,
    call: Call,
) -> (end: Machine)
    requires
        o.done(s, machine, scope),
        meaning::first_two_meaning(o.env, o.world, scope, call) is Some,
        model::lower_first_two(o.env, s, call) matches Some((after, _, _)) && after.code.values.len()
            <= usize::MAX,
    ensures
        ({
            let (after, a, b) = model::lower_first_two(o.env, s, call)->0;
            let (last, x, y) = meaning::first_two_meaning(o.env, o.world, scope, call)->0;
            &&& follows(o, machine, after, end, last)
            &&& laws::holds(end, a, x)
            &&& laws::holds(end, b, y)
        }),
    decreases call, 0nat,
{
    let (s1, a) = model::lower_value(o.env, s, call.arguments@[0])->0;
    let (scope1, x) = meaning::value_meaning(o.env, o.world, scope, call.arguments@[0])->0;
    growth::lemma_value_grows(o.env, s1, call.arguments@[1]);
    let first = lemma_means_value(o, s, machine, scope, call.arguments@[0]);
    lemma_means_value(o, s1, first, scope1, call.arguments@[1])
}

/// A number in another base.
proof fn lemma_means_radix(
    o: Origin,
    s: LowerState,
    machine: Machine,
    scope: Scope,
    call: Call,
    endianness: Endianness,
) -> (end: Machine)
    requires
        o.done(s, machine, scope),
        meaning::radix_meaning(o.env, o.world, scope, call, endianness) is Some,
        model::lower_to_radix(o.env, s, call, endianness) matches Some((after, _)) && after.code.values.len()
            <= usize::MAX,
    ensures
        ({
            let (after, result) = model::lower_to_radix(o.env, s, call, endianness)->0;
            let (last, value) = meaning::radix_meaning(o.env, o.world, scope, call, endianness)->0;
            &&& follows(o, machine, after, end, last)
            &&& gives(end, result, value)
        }),
    decreases call, 1nat,
{
    let (s1, a, b) = model::lower_first_two(o.env, s, call)->0;
    let (scope1, x, y) = meaning::first_two_meaning(o.env, o.world, scope, call)->0;
    let first = lemma_means_first_two(o, s, machine, scope, call);
    let op = Opcode::ToRadix(endianness, call.return_type->Array_0 as usize);
    emit_world_value(o, s1, first, scope1, op, seq![a, b], seq![x, y], seq![])
}

/// A number in binary.
proof fn lemma_means_bits(
    o: Origin,
    s: LowerState,
    machine: Machine,
    scope: Scope,
    call: Call,
    endianness: Endianness,
) -> (end: Machine)
    requires
        o.done(s, machine, scope),
        meaning::bits_meaning(o.env, o.world, scope, call, endianness) is Some,
        model::lower_to_bits(o.env, s, call, endianness) matches Some((after, _)) && after.code.values.len()
            <= usize::MAX,
    ensures
        ({
            let (after, result) = model::lower_to_bits(o.env, s, call, endianness)->0;
            let (last, value) = meaning::bits_meaning(o.env, o.world, scope, call, endianness)->0;
            &&& follows(o, machine, after, end, last)
            &&& gives(end, result, value)
        }),
    decreases call, 1nat,
{
    let (s1, a) = model::lower_first(o.env, s, call)->0;
    let (scope1, x) = meaning::first_meaning(o.env, o.world, scope, call)->0;
    let first = lemma_means_first(o, s, machine, scope, call);
    let op = Opcode::ToBits(endianness, call.return_type->Array_0 as usize);
    emit_world_value(o, s1, first, scope1, op, seq![a], seq![x], seq![])
}

/// The length of an array or a vector.
proof fn lemma_means_array_len(
    o: Origin,
    s: LowerState,
    machine: Machine,
    scope: Scope,
    call: Call,
) -> (end: Machine)
    requires
        o.done(s, machine, scope),
        meaning::array_len_meaning(o.env, o.world, scope, call) is Some,
        model::lower_array_len(o.env, s, call) matches Some((after, _)) && after.code.values.len()
            <= usize::MAX,
    ensures
        ({
            let (after, result) = model::lower_array_len(o.env, s, call)->0;
            let (last, value) = meaning::array_len_meaning(o.env, o.world, scope, call)->0;
            &&& follows(o, machine, after, end, last)
            &&& gives(end, result, value)
        }),
    decreases call, 1nat,
{
    match call.arguments@[0].return_type {
        Some(ast::Type::Array(len, _)) => {
            let (s1, _) = model::lower(o.env, s, call.arguments@[0])->0;
            let (scope1, _) = meaning::meaning(o.env, o.world, scope, call.arguments@[0])->0;
            let first = lemma_means(o, s, machine, scope, call.arguments@[0]);
            emit_constant(o, s1, first, scope1, ConstantView::U(32, len as u128))
        },
        _ => {
            let (s1, slice) = model::lower_first(o.env, s, call)->0;
            let (scope1, data) = meaning::first_meaning(o.env, o.world, scope, call)->0;
            let first = lemma_means_first(o, s, machine, scope, call);
            let len = Data::Number(data->Parts_0.len() as int);
            let op = Opcode::SliceLen;
            emit_value(o, s1, first, scope1, op, seq![slice], seq![data], seq![], len)
        },
    }
}

/// A function that stands in for another.
proof fn lemma_means_replacement(
    o: Origin,
    s: LowerState,
    machine: Machine,
    scope: Scope,
    name: Seq<char>,
    call: Call,
) -> (end: Machine)
    requires
        o.done(s, machine, scope),
        meaning::replacement_meaning(o.env, o.world, scope, name, call) is Some,
        model::lower_replacement_call(o.env, s, name, call) matches Some((after, _)) && after.code.values.len()
            <= usize::MAX,
    ensures
        ({
            let (after, result) = model::lower_replacement_call(o.env, s, name, call)->0;
            let (last, value) = meaning::replacement_meaning(o.env, o.world, scope, name, call)->0;
            &&& follows(o, machine, after, end, last)
            &&& gives(end, result, value)
        }),
    decreases call, 1nat,
{
    let function = model::replacement_for(o.env, name, call.return_type)->0;
    lemma_means_static_call(o, s, machine, scope, function, call)
}

/// Two values asserted to be equal.
proof fn lemma_means_assert_eq(
    o: Origin,
    s: LowerState,
    machine: Machine,
    scope: Scope,
    call: Call,
) -> (end: Machine)
    requires
        o.done(s, machine, scope),
        meaning::assert_eq_meaning(o.env, o.world, scope, call) is Some,
        model::lower_assert_eq(o.env, s, call) matches Some((after, _)) && after.code.values.len()
            <= usize::MAX,
    ensures
        ({
            let (after, result) = model::lower_assert_eq(o.env, s, call)->0;
            let (last, value) = meaning::assert_eq_meaning(o.env, o.world, scope, call)->0;
            &&& follows(o, machine, after, end, last)
            &&& gives(end, result, value)
        }),
    decreases call, 1nat,
{
    let (s1, a, b) = model::lower_first_two(o.env, s, call)->0;
    let (scope1, x, y) = meaning::first_two_meaning(o.env, o.world, scope, call)->0;
    let first = lemma_means_first_two(o, s, machine, scope, call);
    emit_equality(o, s1, first, scope1, a, b, x)
}

/// A condition asserted.
proof fn lemma_means_static_assert(
    o: Origin,
    s: LowerState,
    machine: Machine,
    scope: Scope,
    call: Call,
) -> (end: Machine)
    requires
        o.done(s, machine, scope),
        meaning::static_assert_meaning(o.env, o.world, scope, call) is Some,
        model::lower_static_assert(o.env, s, call) matches Some((after, _)) && after.code.values.len()
            <= usize::MAX,
    ensures
        ({
            let (after, result) = model::lower_static_assert(o.env, s, call)->0;
            let (last, value) = meaning::static_assert_meaning(o.env, o.world, scope, call)->0;
            &&& follows(o, machine, after, end, last)
            &&& gives(end, result, value)
        }),
    decreases call, 1nat,
{
    let (s1, cond) = model::lower_first(o.env, s, call)->0;
    let (scope1, data) = meaning::first_meaning(o.env, o.world, scope, call)->0;
    let first = lemma_means_first(o, s, machine, scope, call);
    emit_assertion(o, s1, first, scope1, Opcode::AssertBool, seq![cond], seq![data])
}

/// A constraint on the width of a value.
proof fn lemma_means_range_constraint(
    o: Origin,
    s: LowerState,
    machine: Machine,
    scope: Scope,
    call: Call,
) -> (end: Machine)
    requires
        o.done(s, machine, scope),
        meaning::range_constraint_meaning(o.env, o.world, scope, call) is Some,
        model::lower_range_constraint(o.env, s, call) matches Some((after, _)) && after.code.values.len()
            <= usize::MAX,
    ensures
        ({
            let (after, result) = model::lower_range_constraint(o.env, s, call)->0;
            let (last, value) = meaning::range_constraint_meaning(o.env, o.world, scope, call)->0;
            &&& follows(o, machine, after, end, last)
            &&& gives(end, result, value)
        }),
    decreases call, 1nat,
{
    let (s1, value) = model::lower_first(o.env, s, call)->0;
    let (scope1, data) = meaning::first_meaning(o.env, o.world, scope, call)->0;
    let first = lemma_means_first(o, s, machine, scope, call);
    let op = Opcode::RangeCheck(model::literal_argument(call, 1)->0 as usize);
    let heap = (o.world.effect)(op, seq![data], scope1.heap)->0;
    emit_effect(o, s1, first, scope1, op, seq![value], seq![data], heap)
}

/// A witness asked for.
proof fn lemma_means_as_witness(
    o: Origin,
    s: LowerState,
    machine: Machine,
    scope: Scope,
    call: Call,
) -> (end: Machine)
    requires
        o.done(s, machine, scope),
        meaning::as_witness_meaning(o.env, o.world, scope, call) is Some,
        model::lower_as_witness(o.env, s, call) matches Some((after, _)) && after.code.values.len()
            <= usize::MAX,
    ensures
        ({
            let (after, result) = model::lower_as_witness(o.env, s, call)->0;
            let (last, value) = meaning::as_witness_meaning(o.env, o.world, scope, call)->0;
            &&& follows(o, machine, after, end, last)
            &&& gives(end, result, value)
        }),
    decreases call, 1nat,
{
    lemma_means(o, s, machine, scope, call.arguments@[0])
}

/// An array made a vector.
proof fn lemma_means_as_vector(
    o: Origin,
    s: LowerState,
    machine: Machine,
    scope: Scope,
    call: Call,
) -> (end: Machine)
    requires
        o.done(s, machine, scope),
        meaning::as_vector_meaning(o.env, o.world, scope, call) is Some,
        model::lower_as_vector(o.env, s, call) matches Some((after, _)) && after.code.values.len()
            <= usize::MAX,
    ensures
        ({
            let (after, result) = model::lower_as_vector(o.env, s, call)->0;
            let (last, value) = meaning::as_vector_meaning(o.env, o.world, scope, call)->0;
            &&& follows(o, machine, after, end, last)
            &&& gives(end, result, value)
        }),
    decreases call, 1nat,
{
    let (s1, array) = model::lower_first(o.env, s, call)->0;
    let (scope1, data) = meaning::first_meaning(o.env, o.world, scope, call)->0;
    let first = lemma_means_first(o, s, machine, scope, call);
    let op = Opcode::Cast(CastTarget::ArrayToSlice);
    emit_value(o, s1, first, scope1, op, seq![array], seq![data], seq![], data)
}

/// A builtin.
proof fn lemma_means_builtin(
    o: Origin,
    s: LowerState,
    machine: Machine,
    scope: Scope,
    name: Seq<char>,
    call: Call,
) -> (end: Machine)
    requires
        o.done(s, machine, scope),
        meaning::builtin_meaning(o.env, o.world, scope, name, call) is Some,
        model::lower_builtin_call(o.env, s, name, call) matches Some((after, _)) && after.code.values.len()
            <= usize::MAX,
    ensures
        ({
            let (after, result) = model::lower_builtin_call(o.env, s, name, call)->0;
            let (last, value) = meaning::builtin_meaning(o.env, o.world, scope, name, call)->0;
            &&& follows(o, machine, after, end, last)
            &&& gives(end, result, value)
        }),
    decreases call, 3nat,
{
    match model::builtin(name) {
        Some(Builtin::AssertEq) => lemma_means_assert_eq(o, s, machine, scope, call),
        Some(Builtin::StaticAssert) => lemma_means_static_assert(o, s, machine, scope, call),
        Some(Builtin::ArrayLen) => lemma_means_array_len(o, s, machine, scope, call),
        Some(Builtin::ToRadix(endianness)) => {
            lemma_means_radix(o, s, machine, scope, call, endianness)
        },
        Some(Builtin::ToBits(endianness)) => {
            lemma_means_bits(o, s, machine, scope, call, endianness)
        },
        Some(Builtin::RangeConstraint) => lemma_means_range_constraint(o, s, machine, scope, call),
        Some(Builtin::IsUnconstrained) => {
            let constant = ConstantView::U(
                1,
                if o.env.in_unconstrained {
                    1
                } else {
                    0
                },
            );
            emit_constant(o, s, machine, scope, constant)
        },
        Some(Builtin::AsWitness) => lemma_means_as_witness(o, s, machine, scope, call),
        Some(Builtin::AsVector) => lemma_means_as_vector(o, s, machine, scope, call),
        None => lemma_means_replacement(o, s, machine, scope, name, call),
    }
}

/// A low-level function.
proof fn lemma_means_lowlevel(
    o: Origin,
    s: LowerState,
    machine: Machine,
    scope: Scope,
    name: Seq<char>,
    call: Call,
) -> (end: Machine)
    requires
        o.done(s, machine, scope),
        meaning::lowlevel_meaning(o.env, o.world, scope, name, call) is Some,
        model::lower_lowlevel_call(o.env, s, name, call) matches Some((after, _)) && after.code.values.len()
            <= usize::MAX,
    ensures
        ({
            let (after, result) = model::lower_lowlevel_call(o.env, s, name, call)->0;
            let (last, value) = meaning::lowlevel_meaning(o.env, o.world, scope, name, call)->0;
            &&& follows(o, machine, after, end, last)
            &&& gives(end, result, value)
        }),
    decreases call, 2nat,
{
    if model::is_intrinsic(name) {
        let (s1, value) = model::lower_first(o.env, s, call)->0;
        let (scope1, data) = meaning::first_meaning(o.env, o.world, scope, call)->0;
        assert(model::lower_lowlevel_call(o.env, s, name, call) == model::lower_intrinsic(
            o.env,
            s,
            name,
            call,
        ));
        let first = lemma_means_first(o, s, machine, scope, call);
        if name == "unsafe_cast"@ {
            let (target, _) = model::cast_target(call.return_type)->0;
            let op = Opcode::Cast(target);
            emit_value(o, s1, first, scope1, op, seq![value], seq![data], seq![], data)
        } else {
            let op = Opcode::Spread(model::spread_bits(call)->0);
            emit_world_value(o, s1, first, scope1, op, seq![value], seq![data], seq![])
        }
    } else {
        lemma_means_replacement(o, s, machine, scope, name, call)
    }
}

/// The value of a place that is read.
proof fn lemma_means_lvalue(
    o: Origin,
    s: LowerState,
    machine: Machine,
    scope: Scope,
    lvalue: LValue,
) -> (end: Machine)
    requires
        o.done(s, machine, scope),
        meaning::lvalue_data(scope, lvalue) is Some,
        model::lower_lvalue_read(o.env, s, lvalue) matches Some((after, _))
            && after.code.values.len() <= usize::MAX,
    ensures
        ({
            let (after, result) = model::lower_lvalue_read(o.env, s, lvalue)->0;
            &&& follows(o, machine, after, end, scope)
            &&& laws::holds(end, result, meaning::lvalue_data(scope, lvalue)->0)
        }),
    decreases lvalue,
{
    match lvalue {
        LValue::Ident(ident) => lemma_means_ident(o, s, machine, scope, ident),
        LValue::Dereference { reference, .. } => {
            let (s1, pointer) = model::lower_lvalue_read(o.env, s, *reference)->0;
            let address = meaning::lvalue_data(scope, *reference)->0;
            let middle = lemma_means_lvalue(o, s, machine, scope, *reference);
            let data = meaning::lvalue_data(scope, lvalue)->0;
            let op = Opcode::Load;
            emit_value(o, s1, middle, scope, op, seq![pointer], seq![address], seq![], data)
        },
        _ => machine,
    }
}

/// A place: its pointer holds what it should, and its path takes the turns that it should.
proof fn lemma_means_place(
    o: Origin,
    s: LowerState,
    machine: Machine,
    scope: Scope,
    lvalue: LValue,
) -> (end: Machine)
    requires
        o.done(s, machine, scope),
        meaning::place_meaning(o.env, o.world, scope, lvalue) is Some,
        model::lower_place(o.env, s, lvalue) matches Some((after, _)) && after.code.values.len()
            <= usize::MAX,
    ensures
        ({
            let (after, place) = model::lower_place(o.env, s, lvalue)->0;
            let (last, pointer, typ, turns) = meaning::place_meaning(
                o.env,
                o.world,
                scope,
                lvalue,
            )->0;
            &&& follows(o, machine, after, end, last)
            &&& laws::holds(end, place.root, pointer)
            &&& place.typ == typ
            &&& laws::takes(end.held, place.path, turns)
        }),
    decreases lvalue, 0nat,
{
    lemma_agrees_heap(s, machine, scope);
    match lvalue {
        LValue::Ident(_) => {
            reveal(agrees);
            machine
        },
        LValue::Index { array, index } => {
            let (s1, place) = model::lower_place(o.env, s, *array)->0;
            let (scope1, pointer, typ, turns) = meaning::place_meaning(
                o.env,
                o.world,
                scope,
                *array,
            )->0;
            growth::lemma_value_grows(o.env, s1, *index);
            let middle = lemma_means_place(o, s, machine, scope, *array);
            lemma_means_value(o, s1, middle, scope1, *index)
        },
        LValue::MemberAccess { object, .. } => lemma_means_place(o, s, machine, scope, *object),
        LValue::Dereference { reference, .. } => {
            lemma_means_lvalue(o, s, machine, scope, *reference)
        },
        LValue::Clone(inner) => lemma_means_place(o, s, machine, scope, *inner),
    }
}

/// An assignment.
#[verifier::spinoff_prover]
proof fn lemma_means_assign(
    o: Origin,
    s: LowerState,
    machine: Machine,
    scope: Scope,
    assign: Assign,
) -> (end: Machine)
    requires
        o.done(s, machine, scope),
        meaning::assign_meaning(o.env, o.world, scope, assign) is Some,
        model::lower_assign(o.env, s, assign) matches Some((after, _)) && after.code.values.len()
            <= usize::MAX,
    ensures
        ({
            let (after, result) = model::lower_assign(o.env, s, assign)->0;
            let (last, value) = meaning::assign_meaning(o.env, o.world, scope, assign)->0;
            &&& follows(o, machine, after, end, last)
            &&& gives(end, result, value)
        }),
    decreases assign, 0nat,
{
    let (s1, new_value) = model::lower_value(o.env, s, *assign.expression)->0;
    let (scope1, new) = meaning::value_meaning(o.env, o.world, scope, *assign.expression)->0;
    let (s2, place) = model::lower_place(o.env, s1, assign.lvalue)->0;
    let (scope2, pointer, typ, turns) = meaning::place_meaning(
        o.env,
        o.world,
        scope1,
        assign.lvalue,
    )->0;
    growth::lemma_place_grows(o.env, s1, assign.lvalue);
    let (s3, whole) = s2.value(Opcode::Load, seq![place.root], seq![]);
    stability::lemma_replace_adds(s3, whole, place.typ, place.path, new_value);
    let first = lemma_means_value(o, s, machine, scope, *assign.expression);
    let second = lemma_means_place(o, s1, first, scope1, assign.lvalue);
    assert(laws::holds(second, new_value, new));
    let store = Opcode::Store;
    if place.path.len() == 0 {
        let heap = semantics::stored(scope2.heap, pointer, new)->0;
        let operands = seq![place.root, new_value];
        emit_effect(o, s2, second, scope2, store, operands, seq![pointer, new], heap)
    } else {
        let data = pointer.target(scope2.heap)->0;
        let new_data = laws::replaced(data, turns, new);
        let heap = semantics::stored(scope2.heap, pointer, new_data)->0;
        let path = place.path;
        let (s4, new_whole) = model::lower_replace(s3, whole, place.typ, path, new_value)->0;
        let load = Opcode::Load;
        let third = emit_value(
            o,
            s2,
            second,
            scope2,
            load,
            seq![place.root],
            seq![pointer],
            seq![],
            data,
        );
        let fourth = laws::lemma_runs_replace(
            o.world,
            o.before,
            o.start,
            s3,
            third,
            whole,
            typ,
            path,
            turns,
            new_value,
        );
        lemma_agrees_still(s3, third, scope2, s4, fourth, scope2);
        let operands = seq![place.root, new_whole];
        emit_effect(o, s4, fourth, scope2, store, operands, seq![pointer, new_data], heap)
    }
}

/// The code of a straight-line expression does what the expression means: it runs through, its
/// result holds the value, and the variables and the heap are then what they should be. In
/// particular, no assertion that holds in the program fails in the code.
pub proof fn law_straight_line_code_does_what_it_means(
    env: LowerEnv,
    world: World,
    s: LowerState,
    machine: Machine,
    scope: Scope,
    e: Expression,
)
    requires
        s.code.has_block(s.current),
        s.has_all(machine),
        agrees(s, machine, scope),
        meaning::meaning(env, world, scope, e) is Some,
        model::lower(env, s, e) matches Some((after, _)) && after.code.values.len() <= usize::MAX,
    ensures
        ({
            let (after, result) = model::lower(env, s, e)->0;
            let (last, value) = meaning::meaning(env, world, scope, e)->0;
            &&& execution::outcome(world, s, machine, after) matches Some(end)
            &&& agrees(after, end, last)
            &&& gives(end, result, value)
        }),
{
    let o = Origin { env, world, before: s, start: machine };
    execution::lemma_runs_refl(world, s, machine);
    let end = lemma_means(o, s, machine, scope, e);
    reveal(execution::runs);
}

/// An assertion that does not hold in the program stops the code.
pub proof fn law_false_assertions_stop_the_code(
    env: LowerEnv,
    world: World,
    s: LowerState,
    machine: Machine,
    scope: Scope,
    e: Expression,
    inner: Expression,
)
    requires
        s.code.has_block(s.current),
        s.has_all(machine),
        agrees(s, machine, scope),
        e.kind == ExpressionKind::Constrain(Box::new(inner)),
        meaning::value_meaning(env, world, scope, inner) matches Some((_, data)) && data
            != semantics::truth(true),
        model::lower(env, s, e) matches Some((after, _)) && after.code.values.len() <= usize::MAX,
    ensures
        model::lower(env, s, e) matches Some((after, _)) && execution::outcome(
            world,
            s,
            machine,
            after,
        ) is None,
{
    let o = Origin { env, world, before: s, start: machine };
    execution::lemma_runs_refl(world, s, machine);
    assert(model::lower(env, s, e) == model::lower_constrain(env, s, inner));
    let (s1, value) = model::lower_value(env, s, inner)->0;
    let middle = lemma_means_value(o, s, machine, scope, inner);
    let operands = seq![value];
    let op = Opcode::AssertBool;
    assert(semantics::operand_data(middle.held, operands)[0] == middle.held[value]);
    execution::lemma_stops(world, s, machine, s1, middle, op, operands);
}

} // verus!
