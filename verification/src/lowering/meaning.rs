//! What straight-line expressions mean.
//!
//! Straight-line expressions are those without loops in which every condition is known. They bind,
//! read and assign variables, immutable or mutable, follow references, build and take apart arrays
//! and tuples, compare, cast and assert. What arithmetic, calls and the taking of digits do is left
//! to the world that the code runs in.

use vstd::prelude::*;
use vstd::utf8::*;
use crate::ast;
use crate::ast::{
    Assign, Binary, BinaryOpKind, Call, Cast, Definition, Expression, ExpressionKind,
    For, FuncId, Ident, If, Index, LValue, Let, Literal, LocalId, Unary, UnaryOp,
};
use crate::lowering::execution;
use crate::lowering::laws;
use crate::lowering::laws::Turn;
use crate::lowering::model;
use crate::lowering::model::{Builtin, LowerEnv};
use crate::ssa::hlssa::{BinaryOp, Endianness, Opcode};
use crate::ssa::semantics;
use crate::ssa::semantics::{Data, Heap, World};

verus! {

/// The variables of a function, and the heap. A mutable variable is bound to a pointer to its
/// value. Hidden are the variables that were bound where control did not go, or no longer is: they
/// are not to be bound again.
#[verifier::ext_equal]
pub struct Scope {
    pub locals: Map<u32, Data>,
    pub mutable: Set<u32>,
    pub hidden: Set<u32>,
    pub heap: Heap,
}

/// What an expression does and gives: the variables and the heap after it, and its value, if it
/// has one. `None` where it has no meaning: it is no straight-line expression, an assertion does
/// not hold, a part is missing, or the like.
pub type Meaning = Option<(Scope, Option<Data>)>;

impl Scope {
    /// What a variable holds.
    pub open spec fn read(self, local: LocalId) -> Option<Data> {
        if !self.locals.contains_key(local.0) {
            None
        } else if self.mutable.contains(local.0) {
            self.locals[local.0].target(self.heap)
        } else {
            Some(self.locals[local.0])
        }
    }

    /// A fresh pointer to something.
    pub open spec fn allocate(self, data: Data) -> (Scope, Data) {
        (Scope { heap: self.heap.push(Some(data)), ..self }, Data::Pointer(self.heap.len()))
    }

    /// A variable bound.
    pub open spec fn bind(self, local: LocalId, data: Data) -> Scope {
        Scope { locals: self.locals.insert(local.0, data), ..self }
    }

    /// A mutable variable bound.
    pub open spec fn bind_mut(self, local: LocalId, data: Data) -> Scope {
        let (scope, pointer) = self.allocate(data);
        Scope {
            locals: scope.locals.insert(local.0, pointer),
            mutable: scope.mutable.insert(local.0),
            ..scope
        }
    }

    /// Further variables hidden.
    pub open spec fn without(self, names: Set<u32>) -> Scope {
        Scope { hidden: self.hidden.union(names), ..self }
    }

    /// Something written through a pointer.
    pub open spec fn write(self, pointer: Data, data: Data) -> Option<Scope> {
        match semantics::stored(self.heap, pointer, data) {
            Some(heap) => Some(Scope { heap, ..self }),
            None => None,
        }
    }
}

/// What a literal that is no collection of expressions holds.
pub open spec fn literal_data(literal: Literal) -> Option<Data> {
    match literal {
        Literal::Bool(b) => Some(semantics::truth(b)),
        Literal::Integer(number, typ) => match model::integer_constant(number, typ) {
            Some(constant) => Some(execution::constant_data(constant)),
            None => None,
        },
        Literal::Str(text) => Some(
            Data::Parts(
                Seq::new(
                    encode_utf8(text@).len(),
                    |i: int| Data::Number(encode_utf8(text@)[i] as int),
                ),
            ),
        ),
        _ => None,
    }
}

/// The code points of a text.
pub open spec fn text_data(text: Seq<char>) -> Data {
    Data::Parts(Seq::new(text.len(), |i: int| Data::Number((text[i] as u128) as int)))
}

/// What is behind a reference, or the value itself where it is of another type.
pub open spec fn followed(data: Data, typ: Option<ast::Type>, heap: Heap) -> Option<Data> {
    match typ {
        Some(ast::Type::Reference(_, _)) => data.target(heap),
        _ => Some(data),
    }
}

/// What an expression means.
pub open spec fn meaning(env: LowerEnv, world: World, scope: Scope, e: Expression) -> Meaning
    decreases e, 1nat,
{
    match e.kind {
        ExpressionKind::Ident(ident) => ident_meaning(env, world, scope, ident),
        ExpressionKind::Literal(literal) => literal_meaning(env, world, scope, literal),
        ExpressionKind::Block(exprs) => block_meaning(env, world, scope, exprs@, exprs@.len()),
        ExpressionKind::Tuple(exprs) => tuple_meaning(env, world, scope, exprs@),
        ExpressionKind::Unary(unary) => unary_meaning(env, world, scope, unary),
        ExpressionKind::Binary(binary) => binary_meaning(env, world, scope, binary),
        ExpressionKind::Index(index) => index_meaning(env, world, scope, index),
        ExpressionKind::ExtractTupleField(tuple, field) => extract_meaning(
            env,
            world,
            scope,
            *tuple,
            field,
        ),
        ExpressionKind::Cast(cast) => cast_meaning(env, world, scope, cast),
        ExpressionKind::If(if_expr) => if_meaning(env, world, scope, if_expr),
        ExpressionKind::Let(binding) => let_meaning(env, world, scope, binding),
        ExpressionKind::Constrain(inner) => constrain_meaning(env, world, scope, *inner),
        ExpressionKind::Assign(assign) => assign_meaning(env, world, scope, assign),
        ExpressionKind::Semi(inner) => match meaning(env, world, scope, *inner) {
            Some((after, _)) => Some((after, None)),
            None => None,
        },
        ExpressionKind::Call(call) => call_meaning(env, world, scope, call),
        ExpressionKind::Clone(inner) => meaning(env, world, scope, *inner),
        ExpressionKind::Drop(_) => Some((scope, None)),
        _ => None,
    }
}

/// What an expression means whose value is needed.
pub open spec fn value_meaning(env: LowerEnv, world: World, scope: Scope, e: Expression) -> Option<(Scope, Data)>
    decreases e, 2nat,
{
    match meaning(env, world, scope, e) {
        Some((after, Some(data))) => Some((after, data)),
        _ => None,
    }
}

/// What the first `n` expressions mean, one after the other, whose values are needed.
pub open spec fn values_meaning(
    env: LowerEnv,
    world: World,
    scope: Scope,
    exprs: Seq<Expression>,
    n: nat,
) -> Option<(Scope, Seq<Data>)>
    decreases exprs, n,
{
    if n == 0 {
        Some((scope, seq![]))
    } else if n > exprs.len() {
        None
    } else {
        match values_meaning(env, world, scope, exprs, (n - 1) as nat) {
            None => None,
            Some((middle, values)) => match value_meaning(env, world, middle, exprs[n - 1]) {
                None => None,
                Some((after, data)) => Some((after, values.push(data))),
            },
        }
    }
}

/// What the first `n` expressions of a block mean.
pub open spec fn block_meaning(
    env: LowerEnv,
    world: World,
    scope: Scope,
    exprs: Seq<Expression>,
    n: nat,
) -> Meaning
    decreases exprs, n,
{
    if n == 0 {
        Some((scope, None))
    } else if n > exprs.len() {
        None
    } else {
        match block_meaning(env, world, scope, exprs, (n - 1) as nat) {
            None => None,
            Some((middle, _)) => meaning(env, world, middle, exprs[n - 1]),
        }
    }
}

/// The result of an instruction that the world decides on.
pub open spec fn world_value(world: World, scope: Scope, op: Opcode, operands: Seq<Data>) -> Meaning {
    match (world.result)(op, operands, scope.heap) {
        Some((data, heap)) => Some((Scope { heap, ..scope }, Some(data))),
        None => None,
    }
}

/// The effect of an instruction without results that the world decides on.
pub open spec fn world_effect(
    world: World,
    scope: Scope,
    op: Opcode,
    operands: Seq<Data>,
) -> Meaning {
    match (world.effect)(op, operands, scope.heap) {
        Some(heap) => Some((Scope { heap, ..scope }, None)),
        None => None,
    }
}

/// A call that the world decides on; a call that returns the unit has no value.
pub open spec fn world_call(
    world: World,
    scope: Scope,
    op: Opcode,
    operands: Seq<Data>,
    return_type: ast::Type,
) -> Meaning {
    if return_type is Unit {
        world_effect(world, scope, op, operands)
    } else {
        world_value(world, scope, op, operands)
    }
}

/// A variable is read, a function is itself, and the world knows the globals.
pub open spec fn ident_meaning(env: LowerEnv, world: World, scope: Scope, ident: Ident) -> Meaning {
    match ident.definition {
        Definition::Local(local) => match scope.read(local) {
            Some(data) => Some((scope, Some(data))),
            None => None,
        },
        Definition::Function(function) => if env.functions.contains_key(function.0) {
            Some((scope, Some(Data::Function(env.functions[function.0]))))
        } else {
            None
        },
        Definition::Global(global) => if env.global_slots.contains_key(global.0) {
            let op = Opcode::ReadGlobal(env.global_slots[global.0] as u64);
            world_value(world, scope, op, seq![])
        } else {
            None
        },
        _ => None,
    }
}

/// The values of all the expressions, together.
pub open spec fn tuple_meaning(env: LowerEnv, world: World, scope: Scope, exprs: Seq<Expression>) -> Meaning
    decreases exprs, exprs.len() + 1,
{
    match values_meaning(env, world, scope, exprs, exprs.len()) {
        Some((after, parts)) => Some((after, Some(Data::Parts(parts)))),
        None => None,
    }
}

/// A tuple behind a reference is read first.
pub open spec fn extract_meaning(
    env: LowerEnv,
    world: World,
    scope: Scope,
    tuple: Expression,
    field: usize,
) -> Meaning
    decreases tuple, 3nat,
{
    match value_meaning(env, world, scope, tuple) {
        Some((after, data)) => match followed(data, tuple.return_type, after.heap) {
            Some(whole) => match whole.part(field as int) {
                Some(part) => Some((after, Some(part))),
                None => None,
            },
            None => None,
        },
        None => None,
    }
}

/// The bits in which a number of a type is written; no other type has a width.
pub open spec fn width(typ: ast::Type) -> Option<usize> {
    match typ {
        ast::Type::Field => Some(254),
        ast::Type::Integer(_, size) => Some(size.bits()),
        ast::Type::Bool => Some(1),
        _ => None,
    }
}

/// A number of the type to cast to. The low bits are kept where that is narrower; where it is
/// wider, a signed number is written in more bits.
pub open spec fn cast_meaning(env: LowerEnv, world: World, scope: Scope, cast: Cast) -> Meaning
    decreases cast, 0nat,
{
    match value_meaning(env, world, scope, *cast.lhs) {
        Some((after, Data::Number(x))) => match width(cast.typ) {
            Some(bits) => {
                let source = match cast.lhs.return_type {
                    Some(typ) => (
                        match width(typ) {
                            Some(from) => from,
                            None => 0,
                        },
                        typ matches ast::Type::Integer(signedness, _) && signedness is Signed,
                    ),
                    None => (0, false),
                };
                Some((after, Some(Data::Number(laws::cast_number(x, source, bits)))))
            },
            None => None,
        },
        _ => None,
    }
}

/// An assertion that holds.
pub open spec fn constrain_meaning(env: LowerEnv, world: World, scope: Scope, inner: Expression) -> Meaning
    decreases inner, 3nat,
{
    match value_meaning(env, world, scope, inner) {
        Some((after, data)) => if data == semantics::truth(true) {
            Some((after, None))
        } else {
            None
        },
        None => None,
    }
}

/// A literal, by what it is made of.
pub open spec fn literal_meaning(env: LowerEnv, world: World, scope: Scope, literal: Literal) -> Meaning
    decreases literal, 0nat,
{
    match literal {
        Literal::Unit => Some((scope, None)),
        Literal::Array(array) => tuple_meaning(env, world, scope, array.contents@),
        Literal::Vector(array) => tuple_meaning(env, world, scope, array.contents@),
        Literal::Repeated { element, length, .. } => match value_meaning(env, world, scope, *element) {
            Some((after, data)) => Some(
                (after, Some(Data::Parts(Seq::new(length as nat, |i: int| data)))),
            ),
            None => None,
        },
        Literal::FmtStr(fragments, captures) => {
            let text = text_data(model::format_text(fragments@));
            match captures.kind {
                ExpressionKind::Tuple(exprs) => match values_meaning(
                    env,
                    world,
                    scope,
                    exprs@,
                    exprs@.len(),
                ) {
                    Some((after, parts)) => Some((after, Some(Data::Parts(seq![text] + parts)))),
                    None => None,
                },
                _ => Some((scope, Some(Data::Parts(seq![text])))),
            }
        },
        _ => match literal_data(literal) {
            Some(data) => Some((scope, Some(data))),
            None => None,
        },
    }
}

/// A reference to a mutable variable is the pointer to it; a reference to any other value is a
/// fresh pointer.
pub open spec fn unary_meaning(env: LowerEnv, world: World, scope: Scope, unary: Unary) -> Meaning
    decreases unary, 0nat,
{
    if unary.skip {
        meaning(env, world, scope, *unary.rhs)
    } else if unary.operator is Reference && mutable_local(scope, *unary.rhs) is Some {
        let local = mutable_local(scope, *unary.rhs)->0;
        if scope.locals.contains_key(local.0) {
            Some((scope, Some(scope.locals[local.0])))
        } else {
            None
        }
    } else {
        match value_meaning(env, world, scope, *unary.rhs) {
            None => None,
            Some((after, data)) => match unary.operator {
                UnaryOp::Reference => {
                    let (last, pointer) = after.allocate(data);
                    Some((last, Some(pointer)))
                },
                UnaryOp::Dereference => match data.target(after.heap) {
                    Some(target) => Some((after, Some(target))),
                    None => None,
                },
                UnaryOp::Not => match semantics::negation(data) {
                    Some(opposite) => Some((after, Some(opposite))),
                    None => None,
                },
                UnaryOp::Minus => {
                    let zero = Data::Number(0);
                    world_value(world, after, Opcode::Binary(BinaryOp::Sub), seq![zero, data])
                },
            },
        }
    }
}

/// The mutable variable that an expression names, if it does.
pub open spec fn mutable_local(scope: Scope, e: Expression) -> Option<LocalId> {
    match e.kind {
        ExpressionKind::Ident(ident) => match ident.definition {
            Definition::Local(local) if scope.mutable.contains(local.0) => Some(local),
            _ => None,
        },
        _ => None,
    }
}

/// The instruction of an operator that is no comparison.
pub open spec fn arithmetic(operator: BinaryOpKind) -> Option<BinaryOp> {
    match operator {
        BinaryOpKind::Add => Some(BinaryOp::Add),
        BinaryOpKind::Subtract => Some(BinaryOp::Sub),
        BinaryOpKind::Multiply => Some(BinaryOp::Mul),
        BinaryOpKind::Divide => Some(BinaryOp::Div),
        BinaryOpKind::Modulo => Some(BinaryOp::Modulo),
        BinaryOpKind::And => Some(BinaryOp::And),
        BinaryOpKind::Or => Some(BinaryOp::Or),
        BinaryOpKind::Xor => Some(BinaryOp::Xor),
        BinaryOpKind::ShiftLeft => Some(BinaryOp::Shl),
        BinaryOpKind::ShiftRight => Some(BinaryOp::Shr),
        _ => None,
    }
}

/// Numbers are compared; what the other operators make of their operands, the world knows.
pub open spec fn operator_meaning(
    world: World,
    scope: Scope,
    operator: BinaryOpKind,
    a: Data,
    b: Data,
) -> Meaning {
    match arithmetic(operator) {
        Some(op) => world_value(world, scope, Opcode::Binary(op), seq![a, b]),
        None => match (a, b) {
            (Data::Number(x), Data::Number(y)) => match laws::comparison(operator, x, y) {
                Some(b) => Some((scope, Some(semantics::truth(b)))),
                None => None,
            },
            _ => None,
        },
    }
}

/// The operands, left before right, and the operator.
pub open spec fn binary_meaning(
    env: LowerEnv,
    world: World,
    scope: Scope,
    binary: Binary,
) -> Meaning
    decreases binary, 0nat,
{
    match value_meaning(env, world, scope, *binary.lhs) {
        Some((middle, a)) => match value_meaning(env, world, middle, *binary.rhs) {
            Some((after, b)) => operator_meaning(world, after, binary.operator, a, b),
            None => None,
        },
        None => None,
    }
}

/// A collection behind a reference is read first.
pub open spec fn index_meaning(env: LowerEnv, world: World, scope: Scope, index: Index) -> Meaning
    decreases index, 0nat,
{
    match value_meaning(env, world, scope, *index.collection) {
        None => None,
        Some((middle, data)) => match followed(data, index.collection.return_type, middle.heap) {
            None => None,
            Some(whole) => match value_meaning(env, world, middle, *index.index) {
                Some((after, Data::Number(at))) => match whole.part(at) {
                    Some(part) => Some((after, Some(part))),
                    None => None,
                },
                _ => None,
            },
        },
    }
}

/// A call asks whether the function that is being run is unconstrained.
pub open spec fn asks_unconstrained(call: Call) -> bool {
    call.func.kind matches ExpressionKind::Ident(ident) && ident.definition matches Definition::Builtin(
        name,
    ) && name@ == "is_unconstrained"@
}

/// A condition rests on nothing but whether the function is unconstrained, or is the opposite of
/// one that does. Control does not part at such a condition.
pub open spec fn is_known(e: Expression) -> bool
    decreases e,
{
    match e.kind {
        ExpressionKind::Unary(unary) => unary.operator is Not && !unary.skip && is_known(
            *unary.rhs,
        ),
        ExpressionKind::Call(call) => asks_unconstrained(call),
        _ => false,
    }
}

/// The branch that the condition, by what it means, leads to. Control does not part.
pub open spec fn if_meaning(env: LowerEnv, world: World, scope: Scope, if_expr: If) -> Meaning
    decreases if_expr, 0nat,
{
    if !is_known(*if_expr.condition) {
        None
    } else {
        match value_meaning(env, world, scope, *if_expr.condition) {
            None => None,
            Some((middle, data)) => if data == semantics::truth(true) {
                meaning(env, world, middle, *if_expr.consequence)
            } else if data == semantics::truth(false) {
                match if_expr.alternative {
                    Some(alternative) => meaning(env, world, middle, *alternative),
                    None => Some((middle, None)),
                }
            } else {
                None
            },
        }
    }
}

/// A variable bound. What has no value is bound to the empty tuple. A variable is mutable for
/// good.
pub open spec fn let_bound(binding: Let, scope: Scope, value: Option<Data>) -> Option<Scope> {
    let data = match value {
        Some(data) => data,
        None => Data::Parts(seq![]),
    };
    if scope.hidden.contains(binding.id.0) {
        None
    } else if binding.mutable {
        Some(scope.bind_mut(binding.id, data))
    } else if scope.mutable.contains(binding.id.0) {
        None
    } else {
        Some(scope.bind(binding.id, data))
    }
}

/// What is bound is evaluated first.
pub open spec fn let_meaning(env: LowerEnv, world: World, scope: Scope, binding: Let) -> Meaning
    decreases binding, 0nat,
{
    match meaning(env, world, scope, *binding.expression) {
        None => None,
        Some((after, value)) => match let_bound(binding, after, value) {
            Some(last) => Some((last, None)),
            None => None,
        },
    }
}

/// What is assigned to: a pointer, the type of what it points to, and the turns from there.
pub open spec fn place_meaning(env: LowerEnv, world: World, scope: Scope, lvalue: LValue) -> Option<
    (Scope, Data, ast::Type, Seq<Turn>),
>
    decreases lvalue, 0nat,
{
    match lvalue {
        LValue::Ident(ident) => match ident.definition {
            Definition::Local(local) => if scope.mutable.contains(local.0)
                && scope.locals.contains_key(local.0) {
                Some((scope, scope.locals[local.0], ident.typ, seq![]))
            } else {
                None
            },
            _ => None,
        },
        LValue::Index { array, index } => match place_meaning(env, world, scope, *array) {
            None => None,
            Some((middle, pointer, typ, turns)) => match value_meaning(env, world, middle, *index) {
                Some((after, Data::Number(at))) => Some(
                    (after, pointer, typ, turns.push(Turn::Element(at))),
                ),
                _ => None,
            },
        },
        LValue::MemberAccess { object, field_index } => match place_meaning(env, world, scope, *object) {
            None => None,
            Some((after, pointer, typ, turns)) => Some(
                (after, pointer, typ, turns.push(Turn::Field(field_index))),
            ),
        },
        LValue::Dereference { reference, element_type } => match lvalue_data(scope, *reference) {
            None => None,
            Some(pointer) => Some((scope, pointer, element_type, seq![])),
        },
        LValue::Clone(inner) => place_meaning(env, world, scope, *inner),
    }
}

/// What a place holds, where the place is a variable or is reached through pointers.
pub open spec fn lvalue_data(scope: Scope, lvalue: LValue) -> Option<Data>
    decreases lvalue,
{
    match lvalue {
        LValue::Ident(ident) => match ident.definition {
            Definition::Local(local) => scope.read(local),
            _ => None,
        },
        LValue::Dereference { reference, .. } => match lvalue_data(scope, *reference) {
            None => None,
            Some(pointer) => pointer.target(scope.heap),
        },
        _ => None,
    }
}

/// What is assigned is evaluated first. Of what the pointer points to, only the part that the
/// turns lead to changes.
pub open spec fn assign_meaning(env: LowerEnv, world: World, scope: Scope, assign: Assign) -> Meaning
    decreases assign, 0nat,
{
    match value_meaning(env, world, scope, *assign.expression) {
        None => None,
        Some((middle, new)) => match place_meaning(env, world, middle, assign.lvalue) {
            None => None,
            Some((after, pointer, typ, turns)) => {
                let data = if turns.len() == 0 {
                    Some(new)
                } else {
                    match pointer.target(after.heap) {
                        Some(whole) if laws::leads(whole, typ, turns) => Some(
                            laws::replaced(whole, turns, new),
                        ),
                        _ => None,
                    }
                };
                match data {
                    None => None,
                    Some(data) => match after.write(pointer, data) {
                        Some(last) => Some((last, None)),
                        None => None,
                    },
                }
            },
        },
    }
}

/// What is called by name is a function, a builtin or a low-level function. Anything else that is
/// called is what an expression gives, which is evaluated after the arguments. Printing does
/// nothing.
pub open spec fn call_meaning(env: LowerEnv, world: World, scope: Scope, call: Call) -> Meaning
    decreases call, 3nat,
{
    match call.func.kind {
        ExpressionKind::Ident(ident) => match ident.definition {
            Definition::Function(function) => static_call_meaning(env, world, scope, function, call),
            Definition::Builtin(name) => builtin_meaning(env, world, scope, name@, call),
            Definition::LowLevel(name) => lowlevel_meaning(env, world, scope, name@, call),
            Definition::Oracle(name) => if name@ == "print"@ {
                Some((scope, None))
            } else {
                None
            },
            _ => None,
        },
        _ => match values_meaning(env, world, scope, call.arguments@, call.arguments@.len()) {
            None => None,
            Some((middle, args)) => match value_meaning(env, world, middle, *call.func) {
                None => None,
                Some((after, function)) => world_call(
                    world,
                    after,
                    Opcode::CallIndirect,
                    seq![function] + args,
                    call.return_type,
                ),
            },
        },
    }
}

/// The instruction that calls a function.
pub open spec fn call_opcode(env: LowerEnv, function: FuncId) -> Opcode {
    Opcode::Call {
        function: env.functions[function.0],
        unconstrained: !env.in_unconstrained && env.natively_unconstrained.contains(function.0),
    }
}

/// The arguments, in order, and the call.
pub open spec fn static_call_meaning(
    env: LowerEnv,
    world: World,
    scope: Scope,
    function: FuncId,
    call: Call,
) -> Meaning
    decreases call, 0nat,
{
    match values_meaning(env, world, scope, call.arguments@, call.arguments@.len()) {
        None => None,
        Some((after, args)) => if env.functions.contains_key(function.0) {
            world_call(world, after, call_opcode(env, function), args, call.return_type)
        } else {
            None
        },
    }
}

/// The first argument.
pub open spec fn first_meaning(env: LowerEnv, world: World, scope: Scope, call: Call) -> Option<
    (Scope, Data),
>
    decreases call, 0nat,
{
    if call.arguments@.len() > 0 {
        value_meaning(env, world, scope, call.arguments@[0])
    } else {
        None
    }
}

/// The first two arguments.
pub open spec fn first_two_meaning(env: LowerEnv, world: World, scope: Scope, call: Call) -> Option<
    (Scope, Data, Data),
>
    decreases call, 0nat,
{
    if call.arguments@.len() > 1 {
        match value_meaning(env, world, scope, call.arguments@[0]) {
            None => None,
            Some((middle, a)) => match value_meaning(env, world, middle, call.arguments@[1]) {
                None => None,
                Some((after, b)) => Some((after, a, b)),
            },
        }
    } else {
        None
    }
}

/// The number in another base. Its digits are known to the world.
pub open spec fn radix_meaning(
    env: LowerEnv,
    world: World,
    scope: Scope,
    call: Call,
    endianness: Endianness,
) -> Meaning
    decreases call, 1nat,
{
    match (first_two_meaning(env, world, scope, call), call.return_type) {
        (Some((after, a, b)), ast::Type::Array(len, _)) => world_value(
            world,
            after,
            Opcode::ToRadix(endianness, len as usize),
            seq![a, b],
        ),
        _ => None,
    }
}

/// The number in binary. Its bits are known to the world.
pub open spec fn bits_meaning(
    env: LowerEnv,
    world: World,
    scope: Scope,
    call: Call,
    endianness: Endianness,
) -> Meaning
    decreases call, 1nat,
{
    match (first_meaning(env, world, scope, call), call.return_type) {
        (Some((after, a)), ast::Type::Array(len, _)) => world_value(
            world,
            after,
            Opcode::ToBits(endianness, len as usize),
            seq![a],
        ),
        _ => None,
    }
}

/// The length of an array is that of its type; the length of a vector is the number of its
/// elements.
pub open spec fn array_len_meaning(env: LowerEnv, world: World, scope: Scope, call: Call) -> Meaning
    decreases call, 1nat,
{
    if call.arguments@.len() == 0 {
        None
    } else {
        match call.arguments@[0].return_type {
            Some(ast::Type::Array(len, _)) => match meaning(
                env,
                world,
                scope,
                call.arguments@[0],
            ) {
                None => None,
                Some((after, _)) => Some((after, Some(Data::Number(len as int)))),
            },
            Some(ast::Type::Vector(_)) => match first_meaning(env, world, scope, call) {
                Some((after, Data::Parts(parts))) => Some(
                    (after, Some(Data::Number(parts.len() as int))),
                ),
                _ => None,
            },
            _ => None,
        }
    }
}

/// Two values that are asserted to be equal are.
pub open spec fn assert_eq_meaning(env: LowerEnv, world: World, scope: Scope, call: Call) -> Meaning
    decreases call, 1nat,
{
    match first_two_meaning(env, world, scope, call) {
        Some((after, a, b)) if a == b => Some((after, None)),
        _ => None,
    }
}

/// A condition that is asserted holds.
pub open spec fn static_assert_meaning(env: LowerEnv, world: World, scope: Scope, call: Call) -> Meaning
    decreases call, 1nat,
{
    match first_meaning(env, world, scope, call) {
        Some((after, data)) if data == semantics::truth(true) => Some((after, None)),
        _ => None,
    }
}

/// Whether a value is in range, the world knows.
pub open spec fn range_constraint_meaning(env: LowerEnv, world: World, scope: Scope, call: Call) -> Meaning
    decreases call, 1nat,
{
    match (first_meaning(env, world, scope, call), model::literal_argument(call, 1)) {
        (Some((after, data)), Some(bits)) => world_effect(
            world,
            after,
            Opcode::RangeCheck(bits as usize),
            seq![data],
        ),
        _ => None,
    }
}

/// What a witness is asked for is evaluated.
pub open spec fn as_witness_meaning(env: LowerEnv, world: World, scope: Scope, call: Call) -> Meaning
    decreases call, 1nat,
{
    if call.arguments@.len() == 0 {
        None
    } else {
        match meaning(env, world, scope, call.arguments@[0]) {
            Some((after, _)) => Some((after, None)),
            None => None,
        }
    }
}

/// A vector has the elements of the array that it is made from.
pub open spec fn as_vector_meaning(env: LowerEnv, world: World, scope: Scope, call: Call) -> Meaning
    decreases call, 1nat,
{
    match first_meaning(env, world, scope, call) {
        Some((after, data)) => Some((after, Some(data))),
        None => None,
    }
}

/// What a builtin does. A function that stands in for one that the compiler does not implement
/// itself is called.
pub open spec fn builtin_meaning(
    env: LowerEnv,
    world: World,
    scope: Scope,
    name: Seq<char>,
    call: Call,
) -> Meaning
    decreases call, 2nat,
{
    match model::builtin(name) {
        Some(Builtin::AssertEq) => assert_eq_meaning(env, world, scope, call),
        Some(Builtin::StaticAssert) => static_assert_meaning(env, world, scope, call),
        Some(Builtin::ArrayLen) => array_len_meaning(env, world, scope, call),
        Some(Builtin::ToRadix(endianness)) => radix_meaning(env, world, scope, call, endianness),
        Some(Builtin::ToBits(endianness)) => bits_meaning(env, world, scope, call, endianness),
        Some(Builtin::RangeConstraint) => range_constraint_meaning(env, world, scope, call),
        Some(Builtin::IsUnconstrained) => Some(
            (scope, Some(semantics::truth(env.in_unconstrained))),
        ),
        Some(Builtin::AsWitness) => as_witness_meaning(env, world, scope, call),
        Some(Builtin::AsVector) => as_vector_meaning(env, world, scope, call),
        None => replacement_meaning(env, world, scope, name, call),
    }
}

/// What a low-level function does. The one that has two results has no meaning here.
pub open spec fn lowlevel_meaning(
    env: LowerEnv,
    world: World,
    scope: Scope,
    name: Seq<char>,
    call: Call,
) -> Meaning
    decreases call, 2nat,
{
    if name == "unsafe_cast"@ {
        match first_meaning(env, world, scope, call) {
            Some((after, data)) => Some((after, Some(data))),
            None => None,
        }
    } else if name == "spread_inner"@ {
        match (first_meaning(env, world, scope, call), model::spread_bits(call)) {
            (Some((after, data)), Some(bits)) => world_value(
                world,
                after,
                Opcode::Spread(bits),
                seq![data],
            ),
            _ => None,
        }
    } else if name == "unspread_inner"@ {
        None
    } else {
        replacement_meaning(env, world, scope, name, call)
    }
}

/// The function that stands in for another is called.
pub open spec fn replacement_meaning(
    env: LowerEnv,
    world: World,
    scope: Scope,
    name: Seq<char>,
    call: Call,
) -> Meaning
    decreases call, 1nat,
{
    match model::replacement_for(env, name, call.return_type) {
        Some(function) => static_call_meaning(env, world, scope, function, call),
        None => None,
    }
}

/// An expression binds a local, in whichever branch of it.
pub open spec fn binds(e: Expression, l: u32) -> bool
    decreases e, 1nat,
{
    match e.kind {
        ExpressionKind::Literal(literal) => literal_binds(literal, l),
        ExpressionKind::Block(exprs) => any_binds(exprs@, exprs@.len(), l),
        ExpressionKind::Tuple(exprs) => any_binds(exprs@, exprs@.len(), l),
        ExpressionKind::Unary(unary) => binds(*unary.rhs, l),
        ExpressionKind::Binary(binary) => binds(*binary.lhs, l) || binds(*binary.rhs, l),
        ExpressionKind::Index(index) => binds(*index.collection, l) || binds(*index.index, l),
        ExpressionKind::Cast(cast) => binds(*cast.lhs, l),
        ExpressionKind::For(for_expr) => for_binds(for_expr, l),
        ExpressionKind::Loop(body) => binds(*body, l),
        ExpressionKind::While(while_expr) => binds(*while_expr.condition, l) || binds(
            *while_expr.body,
            l,
        ),
        ExpressionKind::If(if_expr) => if_binds(if_expr, l),
        ExpressionKind::ExtractTupleField(tuple, _) => binds(*tuple, l),
        ExpressionKind::Call(call) => call_binds(call, l),
        ExpressionKind::Let(binding) => binding.id.0 == l || binds(*binding.expression, l),
        ExpressionKind::Constrain(inner) => binds(*inner, l),
        ExpressionKind::Assign(assign) => binds(*assign.expression, l) || lvalue_binds(
            assign.lvalue,
            l,
        ),
        ExpressionKind::Semi(inner) => binds(*inner, l),
        ExpressionKind::Clone(inner) => binds(*inner, l),
        _ => false,
    }
}

/// One of the first `n` expressions binds a local.
pub open spec fn any_binds(exprs: Seq<Expression>, n: nat, l: u32) -> bool
    decreases exprs, n,
{
    0 < n <= exprs.len() && (any_binds(exprs, (n - 1) as nat, l) || binds(exprs[n - 1], l))
}

pub open spec fn for_binds(for_expr: For, l: u32) -> bool
    decreases for_expr, 0nat,
{
    for_expr.index_variable.0 == l || binds(*for_expr.start_range, l) || binds(
        *for_expr.end_range,
        l,
    ) || binds(*for_expr.block, l)
}

pub open spec fn if_binds(if_expr: If, l: u32) -> bool
    decreases if_expr, 0nat,
{
    binds(*if_expr.condition, l) || binds(*if_expr.consequence, l) || match if_expr.alternative {
        Some(alternative) => binds(*alternative, l),
        None => false,
    }
}

pub open spec fn call_binds(call: Call, l: u32) -> bool
    decreases call, 0nat,
{
    binds(*call.func, l) || any_binds(call.arguments@, call.arguments@.len(), l)
}

pub open spec fn literal_binds(literal: Literal, l: u32) -> bool
    decreases literal, 0nat,
{
    match literal {
        Literal::Array(array) => any_binds(array.contents@, array.contents@.len(), l),
        Literal::Vector(array) => any_binds(array.contents@, array.contents@.len(), l),
        Literal::Repeated { element, length: _, is_vector: _, typ: _ } => binds(*element, l),
        Literal::FmtStr(_, captures) => match captures.kind {
            ExpressionKind::Tuple(exprs) => any_binds(exprs@, exprs@.len(), l),
            _ => false,
        },
        _ => false,
    }
}

pub open spec fn lvalue_binds(lvalue: LValue, l: u32) -> bool
    decreases lvalue, 0nat,
{
    match lvalue {
        LValue::Index { array, index } => lvalue_binds(*array, l) || binds(*index, l),
        LValue::MemberAccess { object, field_index: _ } => lvalue_binds(*object, l),
        LValue::Clone(inner) => lvalue_binds(*inner, l),
        _ => false,
    }
}

} // verus!
