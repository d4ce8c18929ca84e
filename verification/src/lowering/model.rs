//! What the code of an expression is.
//!
//! The functions here say, for a state of the conversion and an expression, what state follows
//! and which value holds the result. They give `None` for what has no code: a name that is not
//! bound, an operation that is not supported, a value asked of an expression that has none.

use vstd::arithmetic::power2::*;
use vstd::prelude::*;
use vstd::utf8::*;
use crate::ast;
use crate::ast::{
    ArrayLiteral, Assign, Binary, BinaryOpKind, Call, Cast, Definition, Expression, ExpressionKind,
    FmtStrFragment, For, FuncId, Ident, If, Index, LValue, Let, Literal, LocalId, Signedness, Unary,
    UnaryOp, While,
};
use crate::field;
use crate::lowering::replacement::LowLevelReplacementView;
use crate::lowering::type_converter;
use crate::ssa::builder;
use crate::ssa::builder::Code;
use crate::ssa::hlssa::{
    BinaryOp, BlockId, CastTarget, ConstantView, Endianness, FunctionId, Opcode,
    SequenceTargetType, TerminatorView, TypeView, ValueId,
};

verus! {

/// What a conversion is given and leaves alone.
pub struct LowerEnv {
    /// The code of each function.
    pub functions: Map<u32, FunctionId>,
    /// The functions that are unconstrained whoever calls them.
    pub natively_unconstrained: Set<u32>,
    /// Whether the function being converted is unconstrained.
    pub in_unconstrained: bool,
    /// The slot of each global.
    pub global_slots: Map<u32, usize>,
    /// What stands in for low-level functions, by name.
    pub replacements: Map<Seq<char>, LowLevelReplacementView>,
}

/// A loop that encloses what is being converted.
#[derive(Clone, Copy, Debug, PartialEq, Eq)]
pub struct LoopContext {
    pub loop_header: BlockId,
    pub exit_block: BlockId,
    /// The index of a `for` loop and its width in bits; no other loop has one.
    pub for_loop_index: Option<(ValueId, usize)>,
}

/// The state of a conversion.
#[verifier::ext_equal]
pub struct LowerState {
    /// What each local is bound to: its value, or, for a mutable one, a pointer to it.
    pub bindings: Map<u32, ValueId>,
    pub mutable_locals: Set<u32>,
    /// The enclosing loops, innermost last.
    pub loops: Seq<LoopContext>,
    /// The block that is being filled.
    pub current: BlockId,
    pub code: Code,
}

impl LowerState {
    /// The value that is defined next.
    pub open spec fn next(self) -> ValueId {
        self.code.next_value()
    }

    /// An instruction added to the current block.
    pub open spec fn emit(
        self,
        op: Opcode,
        operands: Seq<ValueId>,
        types: Seq<TypeView>,
        count: nat,
    ) -> LowerState {
        LowerState { code: self.code.emit(self.current, op, operands, types, count), ..self }
    }

    /// An instruction with one result added to the current block, and its result.
    pub open spec fn value(
        self,
        op: Opcode,
        operands: Seq<ValueId>,
        types: Seq<TypeView>,
    ) -> (LowerState, ValueId) {
        (self.emit(op, operands, types, 1), self.next())
    }

    /// An operator on two values added to the current block, and its result.
    pub open spec fn binary(self, op: BinaryOp, a: ValueId, b: ValueId) -> (LowerState, ValueId) {
        self.value(Opcode::Binary(op), seq![a, b], seq![])
    }

    /// A constant added.
    pub open spec fn constant(self, constant: ConstantView) -> LowerState {
        LowerState { code: self.code.add_const(constant), ..self }
    }

    /// A constant added, and its value.
    pub open spec fn constant_value(self, constant: ConstantView) -> (LowerState, ValueId) {
        (self.constant(constant), self.next())
    }

    /// An empty block added.
    pub open spec fn add_block(self) -> LowerState {
        LowerState { code: self.code.add_block(), ..self }
    }

    /// A parameter added to a block.
    pub open spec fn parameter(self, block: BlockId, typ: TypeView) -> LowerState {
        LowerState { code: self.code.add_parameter(block, typ), ..self }
    }

    /// A block ended with a jump.
    pub open spec fn jump(self, from: BlockId, to: BlockId, args: Seq<ValueId>) -> LowerState {
        LowerState { code: self.code.terminate(from, TerminatorView::Jmp(to, args)), ..self }
    }

    /// A block ended with a jump to one of two.
    pub open spec fn branch(
        self,
        from: BlockId,
        cond: ValueId,
        then_block: BlockId,
        else_block: BlockId,
    ) -> LowerState {
        LowerState {
            code: self.code.terminate(from, TerminatorView::JmpIf(cond, then_block, else_block)),
            ..self
        }
    }

    /// Another block made the current one.
    pub open spec fn at(self, block: BlockId) -> LowerState {
        LowerState { current: block, ..self }
    }

    /// The current block left for a new one that nothing leads to.
    pub open spec fn into_dead_block(self) -> LowerState {
        self.add_block().at(self.code.next_block())
    }

    /// A local bound.
    pub open spec fn bind(self, local: LocalId, value: ValueId) -> LowerState {
        LowerState { bindings: self.bindings.insert(local.0, value), ..self }
    }

    /// A mutable local bound to a fresh pointer, through which its first value is written.
    pub open spec fn bind_mut(self, local: LocalId, value: ValueId, typ: TypeView) -> LowerState {
        let (s1, pointer) = self.value(Opcode::Alloc, seq![], seq![typ]);
        let s2 = s1.emit(Opcode::Store, seq![pointer, value], seq![], 0);
        LowerState {
            bindings: s2.bindings.insert(local.0, pointer),
            mutable_locals: s2.mutable_locals.insert(local.0),
            ..s2
        }
    }

    /// A loop entered.
    pub open spec fn enter(self, context: LoopContext) -> LowerState {
        LowerState { loops: self.loops.push(context), ..self }
    }

    /// The innermost loop left.
    pub open spec fn leave(self) -> LowerState {
        LowerState { loops: self.loops.drop_last(), ..self }
    }

    /// Read through a pointer, if the expression that gave it is a reference.
    pub open spec fn load_reference(self, value: ValueId, typ: Option<ast::Type>) -> (
        LowerState,
        ValueId,
    ) {
        match typ {
            Some(ast::Type::Reference(_, _)) => self.value(Opcode::Load, seq![value], seq![]),
            _ => (self, value),
        }
    }

    /// The loop index of a `for` loop advanced by one.
    pub open spec fn next_index(self, index: ValueId, bits: usize) -> (LowerState, ValueId) {
        let (s1, one) = self.constant_value(ConstantView::U(bits, 1));
        s1.binary(BinaryOp::Add, index, one)
    }

    /// The current block, unless it is ended already, ended by the step to the next round of a
    /// loop.
    pub open spec fn close_round(self, context: LoopContext) -> LowerState {
        if self.code.is_open(self.current) {
            self.next_round(context)
        } else {
            self
        }
    }

    /// The current block ended by the step to the next round of a loop: back to its header,
    /// with the index advanced where there is one.
    pub open spec fn next_round(self, context: LoopContext) -> LowerState {
        match context.for_loop_index {
            Some((index, bits)) => {
                let (s1, next) = self.next_index(index, bits);
                s1.jump(s1.current, context.loop_header, seq![next])
            },
            None => self.jump(self.current, context.loop_header, seq![]),
        }
    }
}

/// What the code of an expression is: the state that follows, and the value of the expression,
/// if it has one.
pub type Lowered = Option<(LowerState, Option<ValueId>)>;

/// The results that a function with this return type has: none, or one.
pub open spec fn return_size(typ: ast::Type) -> nat {
    match typ {
        ast::Type::Unit => 0,
        _ => 1,
    }
}

/// A call added to the current block, and its result, if it has one.
pub open spec fn lower_call_to(
    s: LowerState,
    op: Opcode,
    operands: Seq<ValueId>,
    return_type: ast::Type,
) -> (LowerState, Option<ValueId>) {
    let size = return_size(return_type);
    (
        s.emit(op, operands, seq![], size),
        if size == 0 {
            None
        } else {
            Some(s.next())
        },
    )
}

/// The code of an identifier that is read.
pub open spec fn lower_ident(env: LowerEnv, s: LowerState, ident: Ident) -> Lowered {
    match ident.definition {
        Definition::Local(local) => if !s.bindings.contains_key(local.0) {
            None
        } else if s.mutable_locals.contains(local.0) {
            let (s1, v) = s.value(Opcode::Load, seq![s.bindings[local.0]], seq![]);
            Some((s1, Some(v)))
        } else {
            Some((s, Some(s.bindings[local.0])))
        },
        Definition::Function(function) => if env.functions.contains_key(function.0) {
            let (s1, v) = s.constant_value(ConstantView::FnPtr(env.functions[function.0]));
            Some((s1, Some(v)))
        } else {
            None
        },
        Definition::Global(global) => if env.global_slots.contains_key(global.0) {
            let slot = env.global_slots[global.0];
            let (s1, v) = s.value(
                Opcode::ReadGlobal(slot as u64),
                seq![],
                seq![type_converter::ssa_type(ident.typ)],
            );
            Some((s1, Some(v)))
        } else {
            None
        },
        _ => None,
    }
}

/// The code of an operator on two values, and its result. The instruction set has `==` and `<`
/// only: the other comparisons are made from these.
pub open spec fn lower_operator(s: LowerState, operator: BinaryOpKind, a: ValueId, b: ValueId) -> (
    LowerState,
    ValueId,
) {
    match operator {
        BinaryOpKind::Add => s.binary(BinaryOp::Add, a, b),
        BinaryOpKind::Subtract => s.binary(BinaryOp::Sub, a, b),
        BinaryOpKind::Multiply => s.binary(BinaryOp::Mul, a, b),
        BinaryOpKind::Divide => s.binary(BinaryOp::Div, a, b),
        BinaryOpKind::Equal => s.binary(BinaryOp::Eq, a, b),
        BinaryOpKind::NotEqual => negated(s.binary(BinaryOp::Eq, a, b)),
        BinaryOpKind::Less => s.binary(BinaryOp::Lt, a, b),
        BinaryOpKind::LessEqual => negated(s.binary(BinaryOp::Lt, b, a)),
        BinaryOpKind::Greater => s.binary(BinaryOp::Lt, b, a),
        BinaryOpKind::GreaterEqual => negated(s.binary(BinaryOp::Lt, a, b)),
        BinaryOpKind::And => s.binary(BinaryOp::And, a, b),
        BinaryOpKind::Or => s.binary(BinaryOp::Or, a, b),
        BinaryOpKind::Xor => s.binary(BinaryOp::Xor, a, b),
        BinaryOpKind::Modulo => s.binary(BinaryOp::Modulo, a, b),
        BinaryOpKind::ShiftLeft => s.binary(BinaryOp::Shl, a, b),
        BinaryOpKind::ShiftRight => s.binary(BinaryOp::Shr, a, b),
    }
}

/// A value negated.
pub open spec fn negated(of: (LowerState, ValueId)) -> (LowerState, ValueId) {
    of.0.value(Opcode::Not, seq![of.1], seq![])
}

/// A step from a value into a part of it.
#[derive(Clone, Copy, Debug, PartialEq, Eq)]
pub enum AccessStep {
    /// To the element at an index.
    Index(ValueId),
    /// To a field of a tuple.
    Field(usize),
}

/// The type of the part that a step leads to, if the type has such a part.
pub open spec fn part_type(typ: ast::Type, step: AccessStep) -> Option<ast::Type> {
    match (step, typ) {
        (AccessStep::Index(_), ast::Type::Array(_, element)) => Some(*element),
        (AccessStep::Index(_), ast::Type::Vector(element)) => Some(*element),
        (AccessStep::Field(field), ast::Type::Tuple(fields)) => if field < fields@.len() {
            Some(fields@[field as int])
        } else {
            None
        },
        _ => None,
    }
}

/// The part of a value that a step leads to.
pub open spec fn lower_part(s: LowerState, whole: ValueId, step: AccessStep) -> (
    LowerState,
    ValueId,
) {
    match step {
        AccessStep::Index(index) => s.value(Opcode::ArrayGet, seq![whole, index], seq![]),
        AccessStep::Field(field) => s.value(Opcode::TupleProj(field), seq![whole], seq![]),
    }
}

/// A value with the part that a step leads to replaced.
pub open spec fn lower_replace_part(
    s: LowerState,
    whole: ValueId,
    step: AccessStep,
    typ: ast::Type,
    part: ValueId,
) -> (LowerState, ValueId) {
    match (step, typ) {
        (AccessStep::Index(index), _) => s.value(
            Opcode::ArraySet,
            seq![whole, index, part],
            seq![],
        ),
        (AccessStep::Field(field), ast::Type::Tuple(fields)) => {
            let (s1, elements) = lower_fields(s, whole, field, part, fields@.len());
            s1.value(Opcode::MkTuple, elements, type_converter::ssa_types(fields@))
        },
        _ => (s, whole),
    }
}

/// The first `n` fields of a tuple, one of them replaced.
pub open spec fn lower_fields(
    s: LowerState,
    tuple: ValueId,
    replaced: usize,
    part: ValueId,
    n: nat,
) -> (LowerState, Seq<ValueId>)
    decreases n,
{
    if n == 0 {
        (s, seq![])
    } else {
        let (s1, elements) = lower_fields(s, tuple, replaced, part, (n - 1) as nat);
        if n - 1 == replaced {
            (s1, elements.push(part))
        } else {
            let (s2, v) = s1.value(Opcode::TupleProj((n - 1) as usize), seq![tuple], seq![]);
            (s2, elements.push(v))
        }
    }
}

/// A value with the part at the end of a path replaced: each part on the way is taken out, the
/// last is replaced, and the wholes are put together again from the inside out. `None` if the
/// type has no such part.
pub open spec fn lower_replace(
    s: LowerState,
    whole: ValueId,
    typ: ast::Type,
    path: Seq<AccessStep>,
    new_value: ValueId,
) -> Option<(LowerState, ValueId)>
    decreases path.len(),
{
    if path.len() == 0 {
        Some((s, new_value))
    } else {
        let (s1, part) = lower_part(s, whole, path[0]);
        match part_type(typ, path[0]) {
            None => None,
            Some(inner) => match lower_replace(s1, part, inner, path.drop_first(), new_value) {
                None => None,
                Some((s2, new_part)) => Some(lower_replace_part(s2, whole, path[0], typ, new_part)),
            },
        }
    }
}

/// The value that a place holds, where the place is a variable or is reached through pointers.
pub open spec fn lower_lvalue_read(env: LowerEnv, s: LowerState, lvalue: LValue) -> Option<
    (LowerState, ValueId),
>
    decreases lvalue,
{
    match lvalue {
        LValue::Ident(ident) => match lower_ident(env, s, ident) {
            Some((s1, Some(v))) => Some((s1, v)),
            _ => None,
        },
        LValue::Dereference { reference, .. } => match lower_lvalue_read(env, s, *reference) {
            None => None,
            Some((s1, pointer)) => Some(s1.value(Opcode::Load, seq![pointer], seq![])),
        },
        _ => None,
    }
}

/// Where a place is: a pointer, the type of what it points to, and the path from there.
pub struct Place {
    pub root: ValueId,
    pub typ: ast::Type,
    pub path: Seq<AccessStep>,
}

/// The low `bits` bits of a signed integer.
pub open spec fn twos_complement(number: i128, bits: nat) -> u128 {
    (number as int % pow2(bits) as int) as u128
}

/// The constant that an integer literal of this type is. A field element is carried over to
/// bn254's field; a signed integer is given in two's complement.
pub open spec fn integer_constant(number: ast::SignedField, typ: ast::Type) -> Option<ConstantView> {
    match typ {
        ast::Type::Field => Some(
            ConstantView::Field(field::le_value(number.field_element.le_bytes@) % field::modulus()),
        ),
        ast::Type::Integer(Signedness::Signed, size) => match number.signed {
            Some(n) => if size.bits() < 128 {
                Some(ConstantView::I(size.bits(), twos_complement(n, size.bits() as nat)))
            } else {
                None
            },
            None => None,
        },
        ast::Type::Integer(Signedness::Unsigned, size) => match number.unsigned {
            Some(n) => Some(ConstantView::U(size.bits(), n)),
            None => None,
        },
        ast::Type::Bool => match number.unsigned {
            Some(n) => Some(ConstantView::U(1, n)),
            None => None,
        },
        _ => None,
    }
}

/// The zero that a value of this type is subtracted from to negate it.
pub open spec fn zero_constant(typ: Option<ast::Type>) -> ConstantView {
    match typ {
        Some(ast::Type::Integer(Signedness::Signed, size)) => ConstantView::I(size.bits(), 0),
        Some(ast::Type::Integer(Signedness::Unsigned, size)) => ConstantView::U(size.bits(), 0),
        _ => ConstantView::Field(0),
    }
}

/// Several constants added, and their values.
pub open spec fn lower_constants(s: LowerState, constants: Seq<ConstantView>) -> (
    LowerState,
    Seq<ValueId>,
)
    decreases constants.len(),
{
    if constants.len() == 0 {
        (s, seq![])
    } else {
        let (s1, values) = lower_constants(s, constants.drop_last());
        let (s2, v) = s1.constant_value(constants.last());
        (s2, values.push(v))
    }
}

/// The text that a piece of a format string stands for; a variable is written in braces.
pub open spec fn fragment_text(fragment: FmtStrFragment) -> Seq<char> {
    match fragment {
        FmtStrFragment::String(text) => text@,
        FmtStrFragment::Interpolation(name) => seq!['{'] + name@ + seq!['}'],
    }
}

/// The text of a format string.
pub open spec fn format_text(fragments: Seq<FmtStrFragment>) -> Seq<char>
    decreases fragments.len(),
{
    if fragments.len() == 0 {
        seq![]
    } else {
        format_text(fragments.drop_last()) + fragment_text(fragments.last())
    }
}

/// The code points of a text.
pub open spec fn code_points(text: Seq<char>) -> Seq<ConstantView> {
    Seq::new(text.len(), |i: int| ConstantView::U(32, text[i] as u128))
}

/// The UTF-8 bytes of a text.
pub open spec fn utf8_bytes(text: Seq<char>) -> Seq<ConstantView> {
    Seq::new(encode_utf8(text).len(), |i: int| ConstantView::U(8, encode_utf8(text)[i] as u128))
}

/// An array of constants.
pub open spec fn lower_constant_array(
    s: LowerState,
    constants: Seq<ConstantView>,
    typ: TypeView,
) -> (LowerState, ValueId) {
    let (s1, values) = lower_constants(s, constants);
    s1.value(
        Opcode::MkSeq(SequenceTargetType::Array(constants.len() as usize)),
        values,
        seq![typ],
    )
}

/// Whether each of the expressions has a type.
pub open spec fn all_typed(exprs: Seq<Expression>) -> bool {
    forall|i: int| 0 <= i < exprs.len() ==> (#[trigger] exprs[i]).return_type is Some
}

/// The type of each of the expressions.
pub open spec fn expr_types(exprs: Seq<Expression>) -> Seq<TypeView> {
    Seq::new(exprs.len(), |i: int| type_converter::ssa_type(exprs[i].return_type->0))
}

/// Whether an expression names a function.
pub open spec fn names_function(e: Expression) -> bool {
    e.kind matches ExpressionKind::Ident(ident) && ident.definition is Function
}

/// The type of a tuple's field: that of its expression, except that the name of a function is a
/// single function pointer whatever its type says.
pub open spec fn field_type(e: Expression) -> Option<TypeView> {
    if names_function(e) {
        Some(TypeView::Function)
    } else {
        match e.return_type {
            Some(typ) => Some(type_converter::ssa_type(typ)),
            None => None,
        }
    }
}

pub open spec fn all_fields_typed(exprs: Seq<Expression>) -> bool {
    forall|i: int| 0 <= i < exprs.len() ==> field_type(#[trigger] exprs[i]) is Some
}

pub open spec fn field_types(exprs: Seq<Expression>) -> Seq<TypeView> {
    Seq::new(exprs.len(), |i: int| field_type(exprs[i])->0)
}

/// The element type of an array or a vector.
pub open spec fn element_type(typ: ast::Type) -> Option<ast::Type> {
    match typ {
        ast::Type::Array(_, element) => Some(*element),
        ast::Type::Vector(element) => Some(*element),
        _ => None,
    }
}

/// What a value of a type is cast to when it is cast to `typ`, and the width of the result.
pub open spec fn cast_target(typ: ast::Type) -> Option<(CastTarget, usize)> {
    match typ {
        ast::Type::Field => Some((CastTarget::Field, 254)),
        ast::Type::Integer(Signedness::Unsigned, size) => Some(
            (CastTarget::U(size.bits()), size.bits()),
        ),
        ast::Type::Integer(Signedness::Signed, size) => Some(
            (CastTarget::I(size.bits()), size.bits()),
        ),
        ast::Type::Bool => Some((CastTarget::U(1), 1)),
        _ => None,
    }
}

/// The width of a value that is cast, and whether it is signed. The width of a value that is no
/// number is given as 0.
pub open spec fn cast_source(typ: Option<ast::Type>) -> (usize, bool) {
    match typ {
        Some(ast::Type::Field) => (254, false),
        Some(ast::Type::Integer(signedness, size)) => (size.bits(), signedness is Signed),
        Some(ast::Type::Bool) => (1, false),
        _ => (0, false),
    }
}

/// The code of a cast of a value. To a narrower type the low bits are taken; to a wider one a
/// signed number is sign-extended.
pub open spec fn lower_cast_value(
    s: LowerState,
    value: ValueId,
    source: (usize, bool),
    target: (CastTarget, usize),
) -> (LowerState, ValueId) {
    let (s1, v1) = if source.0 > 0 && target.1 < source.0 {
        s.value(Opcode::BitRange(0, target.1), seq![value], seq![])
    } else {
        (s, value)
    };
    let (s2, v2) = if source.1 && source.0 > 0 && target.1 > source.0 {
        s1.value(Opcode::Sext(source.0, target.1), seq![v1], seq![])
    } else {
        (s1, v1)
    };
    s2.value(Opcode::Cast(target.0), seq![v2], seq![])
}

/// The truth value that a condition has whatever the inputs of the program, where that can be
/// told: `is_unconstrained()`, negated any number of times.
pub open spec fn const_bool(env: LowerEnv, e: Expression) -> Option<bool>
    decreases e,
{
    match e.kind {
        ExpressionKind::Unary(unary) => if unary.operator is Not && !unary.skip {
            match const_bool(env, *unary.rhs) {
                Some(b) => Some(!b),
                None => None,
            }
        } else {
            None
        },
        ExpressionKind::Call(call) => match call.func.kind {
            ExpressionKind::Ident(ident) => match ident.definition {
                Definition::Builtin(name) => if name@ == "is_unconstrained"@ {
                    Some(env.in_unconstrained)
                } else {
                    None
                },
                _ => None,
            },
            _ => None,
        },
        _ => None,
    }
}

/// The unsigned integer that an argument is, if it is a literal.
pub open spec fn literal_argument(call: Call, i: int) -> Option<u128> {
    if i < call.arguments@.len() {
        match call.arguments@[i].kind {
            ExpressionKind::Literal(Literal::Integer(number, _)) => number.unsigned,
            _ => None,
        }
    } else {
        None
    }
}

/// The function that stands in for a low-level function in a call with this return type.
pub open spec fn replacement_for(
    env: LowerEnv,
    name: Seq<char>,
    return_type: ast::Type,
) -> Option<FuncId> {
    if !env.replacements.contains_key(name) {
        None
    } else {
        match env.replacements[name] {
            LowLevelReplacementView::Single(function) => Some(function),
            LowLevelReplacementView::ByArraySize(sizes) => match return_type {
                ast::Type::Array(n, _) => if sizes.contains_key(n) {
                    Some(sizes[n])
                } else {
                    None
                },
                _ => None,
            },
        }
    }
}

/// The low-level functions that the compiler implements itself.
pub open spec fn is_intrinsic(name: Seq<char>) -> bool {
    name == "unsafe_cast"@ || name == "spread_inner"@ || name == "unspread_inner"@
}

/// The code of an expression.
pub open spec fn lower(env: LowerEnv, s: LowerState, e: Expression) -> Lowered
    decreases e, 1nat,
{
    match e.kind {
        ExpressionKind::Ident(ident) => lower_ident(env, s, ident),
        ExpressionKind::Binary(binary) => lower_binary(env, s, binary),
        ExpressionKind::Let(binding) => lower_let(env, s, binding),
        ExpressionKind::Block(exprs) => lower_block(env, s, exprs@, exprs@.len()),
        ExpressionKind::Constrain(inner) => lower_constrain(env, s, *inner),
        ExpressionKind::Semi(inner) => match lower(env, s, *inner) {
            None => None,
            Some((s1, _)) => Some((s1, None)),
        },
        ExpressionKind::Literal(literal) => lower_literal(env, s, literal),
        ExpressionKind::Tuple(exprs) => lower_tuple(env, s, exprs),
        ExpressionKind::Call(call) => lower_call(env, s, call),
        ExpressionKind::Assign(assign) => lower_assign(env, s, assign),
        ExpressionKind::For(for_expr) => lower_for(env, s, for_expr),
        ExpressionKind::Index(index) => lower_index(env, s, index),
        ExpressionKind::ExtractTupleField(tuple, field) => lower_extract(env, s, *tuple, field),
        ExpressionKind::Cast(cast) => lower_cast(env, s, cast),
        ExpressionKind::If(if_expr) => lower_if(env, s, if_expr),
        ExpressionKind::Unary(unary) => lower_unary(env, s, unary),
        ExpressionKind::Clone(inner) => lower(env, s, *inner),
        ExpressionKind::Drop(_) => Some((s, None)),
        ExpressionKind::Break => if s.loops.len() == 0 {
            None
        } else {
            Some((s.jump(s.current, s.loops.last().exit_block, seq![]).into_dead_block(), None))
        },
        ExpressionKind::Continue => if s.loops.len() == 0 {
            None
        } else {
            Some((s.next_round(s.loops.last()).into_dead_block(), None))
        },
        ExpressionKind::While(while_expr) => lower_while(env, s, while_expr),
        ExpressionKind::Loop(body) => lower_loop(env, s, *body),
        ExpressionKind::Match => None,
    }
}

/// The code of an expression whose value is needed.
pub open spec fn lower_value(env: LowerEnv, s: LowerState, e: Expression) -> Option<
    (LowerState, ValueId),
>
    decreases e, 2nat,
{
    match lower(env, s, e) {
        Some((s1, Some(v))) => Some((s1, v)),
        _ => None,
    }
}

/// The code of the first `n` expressions, one after the other, whose values are needed.
pub open spec fn lower_values(env: LowerEnv, s: LowerState, exprs: Seq<Expression>, n: nat) -> Option<
    (LowerState, Seq<ValueId>),
>
    decreases exprs, n,
{
    if n == 0 {
        Some((s, seq![]))
    } else if n > exprs.len() {
        None
    } else {
        match lower_values(env, s, exprs, (n - 1) as nat) {
            None => None,
            Some((s1, values)) => match lower_value(env, s1, exprs[n - 1]) {
                None => None,
                Some((s2, v)) => Some((s2, values.push(v))),
            },
        }
    }
}

/// The code of the first `n` expressions of a block, whose value is that of the last.
pub open spec fn lower_block(env: LowerEnv, s: LowerState, exprs: Seq<Expression>, n: nat) -> Lowered
    decreases exprs, n,
{
    if n == 0 {
        Some((s, None))
    } else if n > exprs.len() {
        None
    } else {
        match lower_block(env, s, exprs, (n - 1) as nat) {
            None => None,
            Some((s1, _)) => lower(env, s1, exprs[n - 1]),
        }
    }
}

/// The code of a binary operation: its operands, left before right, and the operator.
pub open spec fn lower_binary(env: LowerEnv, s: LowerState, binary: Binary) -> Lowered
    decreases binary, 0nat,
{
    match lower_value(env, s, *binary.lhs) {
        None => None,
        Some((s1, a)) => match lower_value(env, s1, *binary.rhs) {
            None => None,
            Some((s2, b)) => {
                let (s3, v) = lower_operator(s2, binary.operator, a, b);
                Some((s3, Some(v)))
            },
        },
    }
}

/// The code that binds what a `let` gives. What has no value is bound to the empty tuple.
pub open spec fn let_bound(s: LowerState, binding: Let, result: Option<ValueId>) -> Option<LowerState> {
    let (s1, value) = match result {
        Some(v) => (s, v),
        None => s.value(Opcode::MkTuple, seq![], seq![]),
    };
    if binding.mutable {
        match binding.expression.return_type {
            Some(typ) => Some(s1.bind_mut(binding.id, value, type_converter::ssa_type(typ))),
            None => None,
        }
    } else {
        Some(s1.bind(binding.id, value))
    }
}

/// The code of a `let`.
pub open spec fn lower_let(env: LowerEnv, s: LowerState, binding: Let) -> Lowered
    decreases binding, 0nat,
{
    match lower(env, s, *binding.expression) {
        None => None,
        Some((s1, result)) => match let_bound(s1, binding, result) {
            None => None,
            Some(s2) => Some((s2, None)),
        },
    }
}

/// The code of an assignment: the new value, then the place, then the write. A part of a value
/// is assigned by writing back the whole with that part replaced.
pub open spec fn lower_assign(env: LowerEnv, s: LowerState, assign: Assign) -> Lowered
    decreases assign, 0nat,
{
    match lower_value(env, s, *assign.expression) {
        None => None,
        Some((s1, new_value)) => match lower_place(env, s1, assign.lvalue) {
            None => None,
            Some((s2, place)) => if place.path.len() == 0 {
                Some((s2.emit(Opcode::Store, seq![place.root, new_value], seq![], 0), None))
            } else {
                let (s3, whole) = s2.value(Opcode::Load, seq![place.root], seq![]);
                match lower_replace(s3, whole, place.typ, place.path, new_value) {
                    None => None,
                    Some((s4, new_whole)) => Some(
                        (s4.emit(Opcode::Store, seq![place.root, new_whole], seq![], 0), None),
                    ),
                }
            },
        },
    }
}

/// The code that finds a place. Only a mutable local, or what a pointer points to, can be
/// assigned to.
pub open spec fn lower_place(env: LowerEnv, s: LowerState, lvalue: LValue) -> Option<
    (LowerState, Place),
>
    decreases lvalue, 0nat,
{
    match lvalue {
        LValue::Ident(ident) => match ident.definition {
            Definition::Local(local) => if s.mutable_locals.contains(local.0)
                && s.bindings.contains_key(local.0) {
                Some((s, Place { root: s.bindings[local.0], typ: ident.typ, path: seq![] }))
            } else {
                None
            },
            _ => None,
        },
        LValue::Index { array, index } => match lower_place(env, s, *array) {
            None => None,
            Some((s1, place)) => match lower_value(env, s1, *index) {
                None => None,
                Some((s2, v)) => Some(
                    (s2, Place { path: place.path.push(AccessStep::Index(v)), ..place }),
                ),
            },
        },
        LValue::MemberAccess { object, field_index } => match lower_place(env, s, *object) {
            None => None,
            Some((s1, place)) => Some(
                (s1, Place { path: place.path.push(AccessStep::Field(field_index)), ..place }),
            ),
        },
        LValue::Dereference { reference, element_type } => match lower_lvalue_read(
            env,
            s,
            *reference,
        ) {
            None => None,
            Some((s1, pointer)) => Some(
                (s1, Place { root: pointer, typ: element_type, path: seq![] }),
            ),
        },
        LValue::Clone(inner) => lower_place(env, s, *inner),
    }
}

/// The code of a `for` loop: a header whose parameter is the index, which tests the index and
/// goes to the body or to the exit; the body goes back to the header with the index advanced.
pub open spec fn lower_for(env: LowerEnv, s: LowerState, for_expr: For) -> Lowered
    decreases for_expr, 1nat,
{
    match lower_value(env, s, *for_expr.start_range) {
        None => None,
        Some((s1, start)) => match lower_value(env, s1, *for_expr.end_range) {
            None => None,
            Some((s2, end_raw)) => match type_converter::ssa_type(for_expr.index_type).bit_size() {
                None => None,
                Some(bits) => {
                    let (s3, end) = if for_expr.inclusive {
                        s2.next_index(end_raw, bits)
                    } else {
                        (s2, end_raw)
                    };
                    lower_for_rest(env, s3, for_expr, start, end, bits)
                },
            },
        },
    }
}

/// The code of a `for` loop whose bounds have been converted.
pub open spec fn lower_for_rest(
    env: LowerEnv,
    s: LowerState,
    for_expr: For,
    start: ValueId,
    end: ValueId,
    bits: usize,
) -> Lowered
    decreases for_expr, 0nat,
{
    let header = s.code.next_block();
    let body = s.add_block().code.next_block();
    let exit = s.add_block().add_block().code.next_block();
    let s4 = s.add_block().add_block().add_block();
    let index = s4.next();
    let s5 = s4.parameter(header, type_converter::ssa_type(for_expr.index_type)).at(header);
    let (s6, cond) = s5.binary(BinaryOp::Lt, index, end);
    let s7 = s6.branch(header, cond, body, exit).jump(s.current, header, seq![start]);
    let context = LoopContext {
        loop_header: header,
        exit_block: exit,
        for_loop_index: Some((index, bits)),
    };
    let s8 = s7.at(body).bind(for_expr.index_variable, index).enter(context);
    match lower(env, s8, *for_expr.block) {
        None => None,
        Some((s9, _)) => Some((s9.leave().close_round(context).at(exit), None)),
    }
}

/// The code of a `while` loop: a header that evaluates the condition and goes to the body or to
/// the exit; the body goes back to the header. The test always ends the header, also where the
/// condition went on to further blocks: the jump by which the header went there is then lost.
pub open spec fn lower_while(env: LowerEnv, s: LowerState, while_expr: While) -> Lowered
    decreases while_expr, 0nat,
{
    let header = s.code.next_block();
    let body = s.add_block().code.next_block();
    let exit = s.add_block().add_block().code.next_block();
    let s1 = s.add_block().add_block().add_block().jump(s.current, header, seq![]).at(header);
    match lower_value(env, s1, *while_expr.condition) {
        None => None,
        Some((s2, cond)) => {
            let context = LoopContext {
                loop_header: header,
                exit_block: exit,
                for_loop_index: None,
            };
            let s3 = s2.branch(header, cond, body, exit).at(body).enter(context);
            match lower(env, s3, *while_expr.body) {
                None => None,
                Some((s4, _)) => Some((s4.leave().close_round(context).at(exit), None)),
            }
        },
    }
}

/// The code of a `loop`: a body that goes back to itself. Only `break` leads to the exit.
pub open spec fn lower_loop(env: LowerEnv, s: LowerState, body: Expression) -> Lowered
    decreases body, 3nat,
{
    let header = s.code.next_block();
    let exit = s.add_block().code.next_block();
    let context = LoopContext { loop_header: header, exit_block: exit, for_loop_index: None };
    let s1 = s.add_block().add_block().jump(s.current, header, seq![]).at(header).enter(context);
    match lower(env, s1, body) {
        None => None,
        Some((s2, _)) => Some((s2.leave().close_round(context).at(exit), None)),
    }
}

/// The code of an `if`. Where the condition is known, only the branch that is taken has code.
/// Otherwise both branches go on to one block, whose parameter is the value, if there is one.
pub open spec fn lower_if(env: LowerEnv, s: LowerState, if_expr: If) -> Lowered
    decreases if_expr, 0nat,
{
    match const_bool(env, *if_expr.condition) {
        Some(true) => lower(env, s, *if_expr.consequence),
        Some(false) => match if_expr.alternative {
            Some(alternative) => lower(env, s, *alternative),
            None => Some((s, None)),
        },
        None => match lower_value(env, s, *if_expr.condition) {
            None => None,
            Some((s1, cond)) => {
                let then_block = s1.code.next_block();
                let else_block = s1.add_block().code.next_block();
                let merge = s1.add_block().add_block().code.next_block();
                let s2 = s1.add_block().add_block().add_block().branch(
                    s1.current,
                    cond,
                    then_block,
                    else_block,
                ).at(then_block);
                match lower(env, s2, *if_expr.consequence) {
                    None => None,
                    Some((s3, then_result)) => {
                        let s4 = s3.at(else_block);
                        let else_lowered = match if_expr.alternative {
                            Some(alternative) => lower(env, s4, *alternative),
                            None => Some((s4, None)),
                        };
                        match else_lowered {
                            None => None,
                            Some((s5, else_result)) => if if_expr.typ is Unit {
                                Some(
                                    (
                                        s5.jump(s3.current, merge, seq![]).jump(
                                            s5.current,
                                            merge,
                                            seq![],
                                        ).at(merge),
                                        None,
                                    ),
                                )
                            } else {
                                match (then_result, else_result) {
                                    (Some(then_value), Some(else_value)) => Some(
                                        (
                                            s5.parameter(merge, type_converter::ssa_type(if_expr.typ)).jump(
                                                s3.current,
                                                merge,
                                                seq![then_value],
                                            ).jump(s5.current, merge, seq![else_value]).at(merge),
                                            Some(s5.next()),
                                        ),
                                    ),
                                    _ => None,
                                }
                            },
                        }
                    },
                }
            },
        },
    }
}

/// The mutable local that an expression names, if it does.
pub open spec fn mutable_local(s: LowerState, e: Expression) -> Option<LocalId> {
    match e.kind {
        ExpressionKind::Ident(ident) => match ident.definition {
            Definition::Local(local) => if s.mutable_locals.contains(local.0) {
                Some(local)
            } else {
                None
            },
            _ => None,
        },
        _ => None,
    }
}

/// Whether an expression is a field of a tuple that is not reached through a pointer: there is
/// no pointer to such a field.
pub open spec fn is_field_without_pointer(e: Expression) -> bool {
    match e.kind {
        ExpressionKind::ExtractTupleField(tuple, _) => match tuple.kind {
            ExpressionKind::Unary(unary) => !(unary.operator is Dereference),
            _ => true,
        },
        _ => false,
    }
}

/// The code of a unary operation. A reference to a mutable local is the pointer that the local
/// is bound to; a reference to any other value is a fresh pointer to it.
pub open spec fn lower_unary(env: LowerEnv, s: LowerState, unary: Unary) -> Lowered
    decreases unary, 0nat,
{
    if unary.skip {
        lower(env, s, *unary.rhs)
    } else if unary.operator is Reference && mutable_local(s, *unary.rhs) is Some {
        let local = mutable_local(s, *unary.rhs)->0;
        if s.bindings.contains_key(local.0) {
            Some((s, Some(s.bindings[local.0])))
        } else {
            None
        }
    } else if unary.operator is Reference && is_field_without_pointer(*unary.rhs) {
        None
    } else {
        match lower_value(env, s, *unary.rhs) {
            None => None,
            Some((s1, value)) => match unary.operator {
                UnaryOp::Reference => match unary.rhs.return_type {
                    None => None,
                    Some(typ) => {
                        let (s2, pointer) = s1.value(
                            Opcode::Alloc,
                            seq![],
                            seq![type_converter::ssa_type(typ)],
                        );
                        Some(
                            (s2.emit(Opcode::Store, seq![pointer, value], seq![], 0), Some(pointer)),
                        )
                    },
                },
                UnaryOp::Dereference => {
                    let (s2, v) = s1.value(Opcode::Load, seq![value], seq![]);
                    Some((s2, Some(v)))
                },
                UnaryOp::Not => {
                    let (s2, v) = s1.value(Opcode::Not, seq![value], seq![]);
                    Some((s2, Some(v)))
                },
                UnaryOp::Minus => {
                    let (s2, zero) = s1.constant_value(zero_constant(unary.rhs.return_type));
                    let (s3, v) = s2.binary(BinaryOp::Sub, zero, value);
                    Some((s3, Some(v)))
                },
            },
        }
    }
}

/// The code of an element at an index. A collection behind a reference is read first.
pub open spec fn lower_index(env: LowerEnv, s: LowerState, index: Index) -> Lowered
    decreases index, 0nat,
{
    match lower_value(env, s, *index.collection) {
        None => None,
        Some((s1, collection)) => {
            let (s2, array) = s1.load_reference(collection, index.collection.return_type);
            match lower_value(env, s2, *index.index) {
                None => None,
                Some((s3, position)) => {
                    let (s4, v) = s3.value(Opcode::ArrayGet, seq![array, position], seq![]);
                    Some((s4, Some(v)))
                },
            }
        },
    }
}

/// The code of a field of a tuple. A tuple behind a reference is read first.
pub open spec fn lower_extract(
    env: LowerEnv,
    s: LowerState,
    tuple_expr: Expression,
    field: usize,
) -> Lowered
    decreases tuple_expr, 3nat,
{
    match lower_value(env, s, tuple_expr) {
        None => None,
        Some((s1, value)) => {
            let (s2, tuple) = s1.load_reference(value, tuple_expr.return_type);
            let (s3, v) = s2.value(Opcode::TupleProj(field), seq![tuple], seq![]);
            Some((s3, Some(v)))
        },
    }
}

/// The code of a cast.
pub open spec fn lower_cast(env: LowerEnv, s: LowerState, cast: Cast) -> Lowered
    decreases cast, 0nat,
{
    match lower_value(env, s, *cast.lhs) {
        None => None,
        Some((s1, value)) => match cast_target(cast.typ) {
            None => None,
            Some(target) => {
                let (s2, v) = lower_cast_value(
                    s1,
                    value,
                    cast_source(cast.lhs.return_type),
                    target,
                );
                Some((s2, Some(v)))
            },
        },
    }
}

/// The code of a constraint: an assertion.
pub open spec fn lower_constrain(env: LowerEnv, s: LowerState, inner: Expression) -> Lowered
    decreases inner, 3nat,
{
    match lower_value(env, s, inner) {
        None => None,
        Some((s1, v)) => Some((s1.emit(Opcode::AssertBool, seq![v], seq![], 0), None)),
    }
}

/// The code of a literal.
pub open spec fn lower_literal(env: LowerEnv, s: LowerState, literal: Literal) -> Lowered
    decreases literal, 0nat,
{
    match literal {
        Literal::Bool(b) => {
            let (s1, v) = s.constant_value(
                ConstantView::U(
                    1,
                    if b {
                        1
                    } else {
                        0
                    },
                ),
            );
            Some((s1, Some(v)))
        },
        Literal::Integer(number, typ) => match integer_constant(number, typ) {
            None => None,
            Some(constant) => {
                let (s1, v) = s.constant_value(constant);
                Some((s1, Some(v)))
            },
        },
        Literal::Unit => Some((s, None)),
        Literal::Array(array) => lower_array(env, s, array),
        Literal::Vector(array) => lower_array(env, s, array),
        Literal::Repeated { element, length, is_vector, typ } => match element_type(typ) {
            None => None,
            Some(inner) => match lower_value(env, s, *element) {
                None => None,
                Some((s1, value)) => {
                    let target = if is_vector {
                        SequenceTargetType::Slice
                    } else {
                        SequenceTargetType::Array(length as usize)
                    };
                    let (s2, v) = s1.value(
                        Opcode::MkRepeated(target, length as usize),
                        seq![value],
                        seq![type_converter::ssa_type(inner)],
                    );
                    Some((s2, Some(v)))
                },
            },
        },
        Literal::Str(text) => {
            let (s1, v) = lower_constant_array(s, utf8_bytes(text@), TypeView::U(8));
            Some((s1, Some(v)))
        },
        Literal::FmtStr(fragments, captures) => {
            let points = code_points(format_text(fragments@));
            let (s1, text) = lower_constant_array(s, points, TypeView::U(32));
            let text_type = TypeView::Array(Box::new(TypeView::U(32)), points.len() as usize);
            match captures.kind {
                ExpressionKind::Tuple(exprs) => match lower_values(env, s1, exprs@, exprs@.len()) {
                    None => None,
                    Some((s2, values)) => if all_typed(exprs@) {
                        let (s3, v) = s2.value(
                            Opcode::MkTuple,
                            seq![text] + values,
                            seq![text_type] + expr_types(exprs@),
                        );
                        Some((s3, Some(v)))
                    } else {
                        None
                    },
                },
                _ => {
                    let (s2, v) = s1.value(Opcode::MkTuple, seq![text], seq![text_type]);
                    Some((s2, Some(v)))
                },
            }
        },
    }
}

/// The code of an array or a vector: its elements, in order, and the sequence of them.
pub open spec fn lower_array(env: LowerEnv, s: LowerState, array: ArrayLiteral) -> Lowered
    decreases array, 0nat,
{
    match lower_values(env, s, array.contents@, array.contents@.len()) {
        None => None,
        Some((s1, values)) => match element_type(array.typ) {
            None => None,
            Some(inner) => {
                let target = match array.typ {
                    ast::Type::Array(len, _) => SequenceTargetType::Array(len as usize),
                    _ => SequenceTargetType::Slice,
                };
                let (s2, v) = s1.value(Opcode::MkSeq(target), values, seq![type_converter::ssa_type(inner)]);
                Some((s2, Some(v)))
            },
        },
    }
}

/// The code of a tuple: its fields, in order, and the tuple of them.
pub open spec fn lower_tuple(env: LowerEnv, s: LowerState, exprs: Vec<Expression>) -> Lowered
    decreases exprs, 0nat,
{
    match lower_values(env, s, exprs@, exprs@.len()) {
        None => None,
        Some((s1, values)) => if all_fields_typed(exprs@) {
            let (s2, v) = s1.value(Opcode::MkTuple, values, field_types(exprs@));
            Some((s2, Some(v)))
        } else {
            None
        },
    }
}

/// The code of a call. What is called by name is a function, a builtin or a low-level function;
/// printing has no code. Anything else that is called is a function pointer, evaluated after
/// the arguments.
pub open spec fn lower_call(env: LowerEnv, s: LowerState, call: Call) -> Lowered
    decreases call, 3nat,
{
    match call.func.kind {
        ExpressionKind::Ident(ident) => match ident.definition {
            Definition::Function(function) => lower_static_call(env, s, function, call),
            Definition::Builtin(name) => lower_builtin_call(env, s, name@, call),
            Definition::LowLevel(name) => lower_lowlevel_call(env, s, name@, call),
            Definition::Oracle(name) => if name@ == "print"@ {
                Some((s, None))
            } else {
                None
            },
            _ => None,
        },
        _ => match lower_values(env, s, call.arguments@, call.arguments@.len()) {
            None => None,
            Some((s1, args)) => match lower_value(env, s1, *call.func) {
                None => None,
                Some((s2, pointer)) => Some(
                    lower_call_to(
                        s2,
                        Opcode::CallIndirect,
                        seq![pointer] + args,
                        call.return_type,
                    ),
                ),
            },
        },
    }
}

/// The code of a call of a function: its arguments, in order, and the call. A constrained
/// function calls one that is unconstrained by nature as unconstrained.
pub open spec fn lower_static_call(
    env: LowerEnv,
    s: LowerState,
    function: FuncId,
    call: Call,
) -> Lowered
    decreases call, 0nat,
{
    match lower_values(env, s, call.arguments@, call.arguments@.len()) {
        None => None,
        Some((s1, args)) => if env.functions.contains_key(function.0) {
            let op = Opcode::Call {
                function: env.functions[function.0],
                unconstrained: !env.in_unconstrained && env.natively_unconstrained.contains(
                    function.0,
                ),
            };
            Some(lower_call_to(s1, op, args, call.return_type))
        } else {
            None
        },
    }
}

/// The code of the call's first argument, whose value is needed.
pub open spec fn lower_first(env: LowerEnv, s: LowerState, call: Call) -> Option<
    (LowerState, ValueId),
>
    decreases call, 0nat,
{
    if call.arguments@.len() > 0 {
        lower_value(env, s, call.arguments@[0])
    } else {
        None
    }
}

/// The code of the call's first two arguments, whose values are needed.
pub open spec fn lower_first_two(env: LowerEnv, s: LowerState, call: Call) -> Option<
    (LowerState, ValueId, ValueId),
>
    decreases call, 0nat,
{
    if call.arguments@.len() > 1 {
        match lower_value(env, s, call.arguments@[0]) {
            None => None,
            Some((s1, a)) => match lower_value(env, s1, call.arguments@[1]) {
                None => None,
                Some((s2, b)) => Some((s2, a, b)),
            },
        }
    } else {
        None
    }
}

/// The code of a call that writes its first argument in the base that is its second, in as many
/// digits as the array that it returns has elements.
pub open spec fn lower_to_radix(
    env: LowerEnv,
    s: LowerState,
    call: Call,
    endianness: Endianness,
) -> Lowered
    decreases call, 1nat,
{
    match lower_first_two(env, s, call) {
        None => None,
        Some((s1, input, radix)) => match call.return_type {
            ast::Type::Array(len, _) => {
                let (s2, v) = s1.value(
                    Opcode::ToRadix(endianness, len as usize),
                    seq![input, radix],
                    seq![],
                );
                Some((s2, Some(v)))
            },
            _ => None,
        },
    }
}

/// The code of a call that writes its first argument in binary, in as many bits as the array
/// that it returns has elements.
pub open spec fn lower_to_bits(
    env: LowerEnv,
    s: LowerState,
    call: Call,
    endianness: Endianness,
) -> Lowered
    decreases call, 1nat,
{
    match lower_first(env, s, call) {
        None => None,
        Some((s1, input)) => match call.return_type {
            ast::Type::Array(len, _) => {
                let (s2, v) = s1.value(
                    Opcode::ToBits(endianness, len as usize),
                    seq![input],
                    seq![],
                );
                Some((s2, Some(v)))
            },
            _ => None,
        },
    }
}

/// The code of the length of an array or a vector. The length of an array is known, but the
/// array is evaluated all the same.
pub open spec fn lower_array_len(env: LowerEnv, s: LowerState, call: Call) -> Lowered
    decreases call, 1nat,
{
    if call.arguments@.len() == 0 {
        None
    } else {
        match call.arguments@[0].return_type {
            Some(ast::Type::Array(len, _)) => match lower(env, s, call.arguments@[0]) {
                None => None,
                Some((s1, _)) => {
                    let (s2, v) = s1.constant_value(ConstantView::U(32, len as u128));
                    Some((s2, Some(v)))
                },
            },
            Some(ast::Type::Vector(_)) => match lower_first(env, s, call) {
                None => None,
                Some((s1, slice)) => {
                    let (s2, v) = s1.value(Opcode::SliceLen, seq![slice], seq![]);
                    Some((s2, Some(v)))
                },
            },
            _ => None,
        }
    }
}

/// The builtins that the compiler implements itself.
#[derive(Clone, Copy, Debug, PartialEq, Eq)]
pub enum Builtin {
    AssertEq,
    StaticAssert,
    ArrayLen,
    ToRadix(Endianness),
    ToBits(Endianness),
    RangeConstraint,
    IsUnconstrained,
    AsWitness,
    AsVector,
}

/// The builtin of a name, if the compiler implements it itself.
#[verifier::opaque]
pub open spec fn builtin(name: Seq<char>) -> Option<Builtin> {
    if name == "assert_eq"@ {
        Some(Builtin::AssertEq)
    } else if name == "static_assert"@ {
        Some(Builtin::StaticAssert)
    } else if name == "array_len"@ {
        Some(Builtin::ArrayLen)
    } else if name == "to_le_radix"@ {
        Some(Builtin::ToRadix(Endianness::Little))
    } else if name == "to_be_radix"@ {
        Some(Builtin::ToRadix(Endianness::Big))
    } else if name == "apply_range_constraint"@ {
        Some(Builtin::RangeConstraint)
    } else if name == "is_unconstrained"@ {
        Some(Builtin::IsUnconstrained)
    } else if name == "as_witness"@ {
        Some(Builtin::AsWitness)
    } else if name == "to_le_bits"@ {
        Some(Builtin::ToBits(Endianness::Little))
    } else if name == "to_be_bits"@ {
        Some(Builtin::ToBits(Endianness::Big))
    } else if name == "as_vector"@ {
        Some(Builtin::AsVector)
    } else {
        None
    }
}

/// The code of an assertion that the first two arguments are equal.
pub open spec fn lower_assert_eq(env: LowerEnv, s: LowerState, call: Call) -> Lowered
    decreases call, 1nat,
{
    match lower_first_two(env, s, call) {
        None => None,
        Some((s1, a, b)) => Some((s1.emit(Opcode::AssertEq, seq![a, b], seq![], 0), None)),
    }
}

/// The code of an assertion that the first argument holds.
pub open spec fn lower_static_assert(env: LowerEnv, s: LowerState, call: Call) -> Lowered
    decreases call, 1nat,
{
    match lower_first(env, s, call) {
        None => None,
        Some((s1, cond)) => Some((s1.emit(Opcode::AssertBool, seq![cond], seq![], 0), None)),
    }
}

/// The code of a constraint on the width of the first argument. The width is a literal.
pub open spec fn lower_range_constraint(env: LowerEnv, s: LowerState, call: Call) -> Lowered
    decreases call, 1nat,
{
    match lower_first(env, s, call) {
        None => None,
        Some((s1, value)) => match literal_argument(call, 1) {
            None => None,
            Some(bits) => Some(
                (s1.emit(Opcode::RangeCheck(bits as usize), seq![value], seq![], 0), None),
            ),
        },
    }
}

/// The code of a request for a witness: the argument is evaluated.
pub open spec fn lower_as_witness(env: LowerEnv, s: LowerState, call: Call) -> Lowered
    decreases call, 1nat,
{
    if call.arguments@.len() == 0 {
        None
    } else {
        match lower(env, s, call.arguments@[0]) {
            None => None,
            Some((s1, _)) => Some((s1, None)),
        }
    }
}

/// The code of an array made a vector.
pub open spec fn lower_as_vector(env: LowerEnv, s: LowerState, call: Call) -> Lowered
    decreases call, 1nat,
{
    match lower_first(env, s, call) {
        None => None,
        Some((s1, array)) => {
            let (s2, v) = s1.value(Opcode::Cast(CastTarget::ArrayToSlice), seq![array], seq![]);
            Some((s2, Some(v)))
        },
    }
}

/// The code of the question whether the function is unconstrained, which is answered at once.
pub open spec fn lower_is_unconstrained(env: LowerEnv, s: LowerState) -> Lowered {
    let (s1, v) = s.constant_value(
        ConstantView::U(
            1,
            if env.in_unconstrained {
                1
            } else {
                0
            },
        ),
    );
    Some((s1, Some(v)))
}

/// The code of a call of a builtin.
pub open spec fn lower_builtin_call(
    env: LowerEnv,
    s: LowerState,
    name: Seq<char>,
    call: Call,
) -> Lowered
    decreases call, 2nat,
{
    match builtin(name) {
        Some(Builtin::AssertEq) => lower_assert_eq(env, s, call),
        Some(Builtin::StaticAssert) => lower_static_assert(env, s, call),
        Some(Builtin::ArrayLen) => lower_array_len(env, s, call),
        Some(Builtin::ToRadix(endianness)) => lower_to_radix(env, s, call, endianness),
        Some(Builtin::ToBits(endianness)) => lower_to_bits(env, s, call, endianness),
        Some(Builtin::RangeConstraint) => lower_range_constraint(env, s, call),
        Some(Builtin::IsUnconstrained) => lower_is_unconstrained(env, s),
        Some(Builtin::AsWitness) => lower_as_witness(env, s, call),
        Some(Builtin::AsVector) => lower_as_vector(env, s, call),
        None => lower_replacement_call(env, s, name, call),
    }
}

/// The code of a call of a low-level function.
pub open spec fn lower_lowlevel_call(
    env: LowerEnv,
    s: LowerState,
    name: Seq<char>,
    call: Call,
) -> Lowered
    decreases call, 2nat,
{
    if is_intrinsic(name) {
        lower_intrinsic(env, s, name, call)
    } else {
        lower_replacement_call(env, s, name, call)
    }
}

/// The code of a call of a function that another stands in for.
pub open spec fn lower_replacement_call(
    env: LowerEnv,
    s: LowerState,
    name: Seq<char>,
    call: Call,
) -> Lowered
    decreases call, 1nat,
{
    match replacement_for(env, name, call.return_type) {
        None => None,
        Some(function) => lower_static_call(env, s, function, call),
    }
}

/// The width that the second argument of `spread_inner` or `unspread_inner` gives: a literal
/// from 1 to 16.
pub open spec fn spread_bits(call: Call) -> Option<u8> {
    match literal_argument(call, 1) {
        None => None,
        Some(number) => {
            let bits = number as u32;
            if 1 <= bits <= 16 {
                Some(bits as u8)
            } else {
                None
            }
        },
    }
}

/// The odd and the even bits of a value, as a tuple.
pub open spec fn lower_unspread(s: LowerState, value: ValueId, bits: u8) -> (LowerState, ValueId) {
    s.emit(Opcode::Unspread(bits), seq![value], seq![], 2).value(
        Opcode::MkTuple,
        builder::fresh_values(s.code.values.len(), 2),
        seq![TypeView::U(32), TypeView::U(32)],
    )
}

/// The code of a call of a low-level function that the compiler implements itself.
pub open spec fn lower_intrinsic(
    env: LowerEnv,
    s: LowerState,
    name: Seq<char>,
    call: Call,
) -> Lowered
    decreases call, 1nat,
{
    if name == "unsafe_cast"@ {
        match cast_target(call.return_type) {
            None => None,
            Some((target, _)) => match lower_first(env, s, call) {
                None => None,
                Some((s1, value)) => {
                    let (s2, v) = s1.value(Opcode::Cast(target), seq![value], seq![]);
                    Some((s2, Some(v)))
                },
            },
        }
    } else {
        match spread_bits(call) {
            None => None,
            Some(bits) => match lower_first(env, s, call) {
                None => None,
                Some((s1, value)) => if name == "spread_inner"@ {
                    let (s2, v) = s1.value(Opcode::Spread(bits), seq![value], seq![]);
                    Some((s2, Some(v)))
                } else {
                    let (s2, v) = lower_unspread(s1, value, bits);
                    Some((s2, Some(v)))
                },
            },
        }
    }
}

} // verus!
