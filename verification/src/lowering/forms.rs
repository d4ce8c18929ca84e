//! What each form of expression adds to the code: its instructions, with the values that they read
//! and the types that they name, and its constants.

use std::collections::{HashMap, HashSet};
use vstd::arithmetic::power2::*;
use vstd::prelude::*;
use vstd::utf8::*;
use crate::ast;
use crate::ast::{
    Assign, Call, Cast, Definition, Expression, ExpressionKind, FmtStrFragment, For, Ident, If,
    LValue, Let, Literal, Signedness, Unary, While,
};
use crate::field;
use crate::lowering::execution;
use crate::lowering::expression_converter::ExpressionConverter;
use crate::lowering::frame;
use crate::lowering::laws;
use crate::lowering::meaning;
use crate::lowering::model;
use crate::lowering::model::{AccessStep, Builtin, LoopContext, LowerEnv, LowerState};
use crate::lowering::replacement::{LowLevelReplacement, LowLevelReplacementView};
use crate::lowering::stability;
use crate::lowering::type_converter;
use crate::ssa::hlssa::{
    BinaryOp, BlockId, BlockView, CastTarget, ConstantView, Endianness, FunctionId,
    InstructionView, Opcode, SequenceTargetType, TerminatorView, TypeView, ValueDefView, ValueId,
};
use crate::ssa::semantics::{Data, World};
use crate::text_map::TextMap;

verus! {

/// The type of the numbers that a cast gives.
pub open spec fn cast_type(target: CastTarget) -> Option<TypeView> {
    match target {
        CastTarget::Field => Some(TypeView::Field),
        CastTarget::U(bits) => Some(TypeView::U(bits)),
        CastTarget::I(bits) => Some(TypeView::I(bits)),
        CastTarget::ArrayToSlice => None,
    }
}

/// The type of a constant.
pub open spec fn constant_type(constant: ConstantView) -> TypeView {
    match constant {
        ConstantView::U(bits, _) => TypeView::U(bits),
        ConstantView::I(bits, _) => TypeView::I(bits),
        ConstantView::Field(_) => TypeView::Field,
        ConstantView::FnPtr(_) => TypeView::Function,
    }
}

/// A type whose values are numbers.
pub open spec fn is_number_type(typ: ast::Type) -> bool {
    typ is Field || typ is Integer || typ is Bool
}

/// The last instruction of the current block.
pub open spec fn last(s: LowerState) -> InstructionView {
    s.instructions().last()
}

/// The last instruction but one of the current block.
pub open spec fn last_but_one(s: LowerState) -> InstructionView {
    s.instructions()[s.instructions().len() - 2]
}

/// The current block has so many instructions more than it had.
pub open spec fn longer_by(s: LowerState, after: LowerState, count: int) -> bool {
    &&& after.current == s.current
    &&& after.instructions().len() == s.instructions().len() + count
    &&& s.instructions().is_prefix_of(after.instructions())
}

/// A value is a constant.
pub open spec fn is_constant(s: LowerState, value: ValueId, constant: ConstantView) -> bool {
    s.code.has_value(value) && s.code.values[value.0 as int] == ValueDefView::Constant(constant)
}

/// The block that is filled after an expression has been converted is there.
proof fn lemma_there(env: LowerEnv, s: LowerState, e: Expression)
    requires
        s.code.has_block(s.current),
    ensures
        model::lower(env, s, e) matches Some((after, _)) ==> after.code.has_block(after.current)
            && s.code.values.len() <= after.code.values.len(),
{
    stability::lemma_kept_refl(s);
    frame::lemma_lower_kept(s, env, s, e, 0);
    if let Some((after, _)) = model::lower(env, s, e) {
        frame::lemma_has_block(s, after);
    }
}

/// The block that is filled after several expressions have been converted is there.
proof fn lemma_all_there(env: LowerEnv, s: LowerState, exprs: Seq<Expression>)
    requires
        s.code.has_block(s.current),
    ensures
        model::lower_values(env, s, exprs, exprs.len()) matches Some((after, _))
            ==> after.code.has_block(after.current) && s.code.values.len()
            <= after.code.values.len(),
{
    stability::lemma_kept_refl(s);
    frame::lemma_values_kept(s, env, s, exprs, exprs.len(), 0);
    if let Some((after, _)) = model::lower_values(env, s, exprs, exprs.len()) {
        frame::lemma_has_block(s, after);
    }
}

/// A cast ends with an instruction that names the type that the program asks for, in its width and
/// its signedness, and whose result is the value of the cast. Before that, a number that is to be
/// narrower has its low bits taken, a signed one that is to be wider is sign-extended, and any other
/// is taken as it is. What is no number has no cast.
#[verifier::spinoff_prover]
pub proof fn law_casts_name_the_type_that_is_asked_for(
    env: LowerEnv,
    s: LowerState,
    e: Expression,
    cast: Cast,
)
    requires
        e.kind == ExpressionKind::Cast(cast),
        s.code.has_block(s.current),
    ensures
        match (model::lower_value(env, s, *cast.lhs), meaning::width(cast.typ)) {
            (Some((s1, operand)), Some(to)) => {
                &&& is_number_type(cast.typ)
                &&& model::lower(env, s, e) matches Some((after, Some(result)))
                &&& last(after).op matches Opcode::Cast(target)
                &&& cast_type(target) == Some(type_converter::ssa_type(cast.typ))
                &&& last(after).results == seq![result]
                &&& last(after).types == Seq::<TypeView>::empty()
                &&& match cast.lhs.return_type {
                    Some(ast::Type::Integer(signedness, size)) if size.bits() < to
                        && signedness is Signed => {
                        &&& longer_by(s1, after, 2)
                        &&& last_but_one(after).op == Opcode::Sext(size.bits(), to)
                        &&& last_but_one(after).operands == seq![operand]
                        &&& last(after).operands == last_but_one(after).results
                    },
                    Some(typ) if meaning::width(typ) is Some && to < meaning::width(typ)->0 => {
                        &&& longer_by(s1, after, 2)
                        &&& last_but_one(after).op == Opcode::BitRange(0, to)
                        &&& last_but_one(after).operands == seq![operand]
                        &&& last(after).operands == last_but_one(after).results
                    },
                    _ => longer_by(s1, after, 1) && last(after).operands == seq![operand],
                }
            },
            _ => model::lower(env, s, e) is None,
        },
{
    lemma_there(env, s, *cast.lhs);
    assert(model::lower(env, s, e) == model::lower_cast(env, s, cast));
}

/// The opposite of a number is what is left when it is subtracted from zero. The zero is a constant
/// of the number's type, or of the field where the number is no integer.
#[verifier::spinoff_prover]
pub proof fn law_negation_subtracts_from_zero(
    env: LowerEnv,
    s: LowerState,
    e: Expression,
    unary: Unary,
)
    requires
        e.kind == ExpressionKind::Unary(unary),
        unary.operator is Minus,
        !unary.skip,
        s.code.has_block(s.current),
        model::lower_value(env, s, *unary.rhs) matches Some((s1, _)) && s1.code.values.len()
            < usize::MAX,
    ensures
        ({
            let (s1, operand) = model::lower_value(env, s, *unary.rhs)->0;
            &&& model::lower(env, s, e) matches Some((after, Some(result)))
            &&& longer_by(s1, after, 1)
            &&& last(after).op == Opcode::Binary(BinaryOp::Sub)
            &&& last(after).results == seq![result]
            &&& last(after).operands.len() == 2
            &&& last(after).operands[1] == operand
            &&& after.code.has_value(last(after).operands[0])
            &&& after.code.values[last(after).operands[0].0 as int] matches ValueDefView::Constant(
                zero,
            )
            &&& execution::constant_data(zero) == Data::Number(0)
            &&& constant_type(zero) == match unary.rhs.return_type {
                Some(ast::Type::Integer(signedness, size)) => type_converter::ssa_type(
                    ast::Type::Integer(signedness, size),
                ),
                _ => TypeView::Field,
            }
        }),
{
    lemma_there(env, s, *unary.rhs);
    assert(model::lower(env, s, e) == model::lower_unary(env, s, unary));
}

/// One instruction without results was added at the end.
pub open spec fn does(
    s: LowerState,
    after: LowerState,
    op: Opcode,
    operands: Seq<ValueId>,
) -> bool {
    &&& longer_by(s, after, 1)
    &&& after.code.values == s.code.values
    &&& last(after) == (InstructionView { op, results: seq![], operands, types: seq![] })
}

/// One instruction with one result was added at the end.
pub open spec fn gives(
    s: LowerState,
    after: LowerState,
    result: ValueId,
    op: Opcode,
    operands: Seq<ValueId>,
    types: Seq<TypeView>,
) -> bool {
    &&& longer_by(s, after, 1)
    &&& after.code.values.len() == s.code.values.len() + 1
    &&& last(after) == (InstructionView { op, results: seq![result], operands, types })
}

/// The first `n` arguments of a call, converted one after the other.
proof fn lemma_arguments(env: LowerEnv, s: LowerState, call: Call)
    requires
        s.code.has_block(s.current),
    ensures
        model::lower_values(env, s, call.arguments@, 1) == match model::lower_first(env, s, call) {
            Some((s1, a)) => Some((s1, seq![a])),
            None => None,
        },
        model::lower_values(env, s, call.arguments@, 2) == match model::lower_first_two(
            env,
            s,
            call,
        ) {
            Some((s1, a, b)) => Some((s1, seq![a, b])),
            None => None,
        },
        model::lower_first(env, s, call) matches Some((s1, _)) ==> s1.code.has_block(s1.current),
        model::lower_first_two(env, s, call) matches Some((s1, _, _)) ==> s1.code.has_block(
            s1.current,
        ),
{
    reveal_with_fuel(model::lower_values, 3);
    let none: Seq<ValueId> = seq![];
    if call.arguments@.len() > 0 {
        lemma_there(env, s, call.arguments@[0]);
        if let Some((s1, a)) = model::lower_value(env, s, call.arguments@[0]) {
            assert(none.push(a) =~= seq![a]);
            if call.arguments@.len() > 1 {
                lemma_there(env, s1, call.arguments@[1]);
                if let Some((s2, b)) = model::lower_value(env, s1, call.arguments@[1]) {
                    assert(seq![a].push(b) =~= seq![a, b]);
                }
            }
        }
    }
}

/// A call of a builtin by its name.
pub open spec fn calls_builtin(e: Expression, name: Seq<char>, call: Call) -> bool {
    &&& e.kind == ExpressionKind::Call(call)
    &&& call.func.kind matches ExpressionKind::Ident(ident)
    &&& ident.definition matches Definition::Builtin(of)
    &&& of@ == name
}

/// A call of a low-level function by its name.
pub open spec fn calls_lowlevel(e: Expression, name: Seq<char>, call: Call) -> bool {
    &&& e.kind == ExpressionKind::Call(call)
    &&& call.func.kind matches ExpressionKind::Ident(ident)
    &&& ident.definition matches Definition::LowLevel(of)
    &&& of@ == name
}

/// The builtins by their names; no other name is that of one.
pub proof fn lemma_builtin_names()
    ensures
        model::builtin("assert_eq"@) == Some(Builtin::AssertEq),
        model::builtin("static_assert"@) == Some(Builtin::StaticAssert),
        model::builtin("array_len"@) == Some(Builtin::ArrayLen),
        model::builtin("to_le_radix"@) == Some(Builtin::ToRadix(Endianness::Little)),
        model::builtin("to_be_radix"@) == Some(Builtin::ToRadix(Endianness::Big)),
        model::builtin("apply_range_constraint"@) == Some(Builtin::RangeConstraint),
        model::builtin("is_unconstrained"@) == Some(Builtin::IsUnconstrained),
        model::builtin("as_witness"@) == Some(Builtin::AsWitness),
        model::builtin("to_le_bits"@) == Some(Builtin::ToBits(Endianness::Little)),
        model::builtin("to_be_bits"@) == Some(Builtin::ToBits(Endianness::Big)),
        model::builtin("as_vector"@) == Some(Builtin::AsVector),
        forall|name: Seq<char>|
            (#[trigger] model::builtin(name)) is Some ==> name == "assert_eq"@ || name
                == "static_assert"@ || name == "array_len"@ || name == "to_le_radix"@ || name
                == "to_be_radix"@ || name == "apply_range_constraint"@ || name
                == "is_unconstrained"@ || name == "as_witness"@ || name == "to_le_bits"@ || name
                == "to_be_bits"@ || name == "as_vector"@,
{
    reveal(model::builtin);
    reveal_strlit("assert_eq");
    reveal_strlit("static_assert");
    reveal_strlit("array_len");
    reveal_strlit("to_le_radix");
    reveal_strlit("to_be_radix");
    reveal_strlit("apply_range_constraint");
    reveal_strlit("is_unconstrained");
    reveal_strlit("as_witness");
    reveal_strlit("to_le_bits");
    reveal_strlit("to_be_bits");
    reveal_strlit("as_vector");
    assert("assert_eq"@.len() == 9 && "array_len"@.len() == 9 && "as_vector"@.len() == 9);
    assert("to_le_radix"@.len() == 11 && "to_be_radix"@.len() == 11);
    assert("as_witness"@.len() == 10 && "to_le_bits"@.len() == 10 && "to_be_bits"@.len() == 10);
    assert("static_assert"@.len() == 13 && "is_unconstrained"@.len() == 16);
    assert("apply_range_constraint"@.len() == 22);
    assert("assert_eq"@[2] == 's' && "array_len"@[2] == 'r' && "as_vector"@[2] == '_');
    assert("to_le_radix"@[3] == 'l' && "to_be_radix"@[3] == 'b');
    assert("as_witness"@[0] == 'a' && "to_le_bits"@[0] == 't' && "to_be_bits"@[0] == 't');
    assert("to_le_bits"@[3] == 'l' && "to_be_bits"@[3] == 'b');
}

/// `assert_eq` asserts that its first two arguments are equal, `static_assert` that its first one
/// holds. Both give nothing.
#[verifier::spinoff_prover]
pub proof fn law_assertions_assert_their_arguments(
    env: LowerEnv,
    s: LowerState,
    e: Expression,
    call: Call,
)
    requires
        s.code.has_block(s.current),
    ensures
        calls_builtin(e, "assert_eq"@, call) ==> match model::lower_values(
            env,
            s,
            call.arguments@,
            2,
        ) {
            Some((s1, values)) => model::lower(env, s, e) matches Some((after, None)) && does(
                s1,
                after,
                Opcode::AssertEq,
                values,
            ),
            None => model::lower(env, s, e) is None,
        },
        calls_builtin(e, "static_assert"@, call) ==> match model::lower_values(
            env,
            s,
            call.arguments@,
            1,
        ) {
            Some((s1, values)) => model::lower(env, s, e) matches Some((after, None)) && does(
                s1,
                after,
                Opcode::AssertBool,
                values,
            ),
            None => model::lower(env, s, e) is None,
        },
{
    lemma_arguments(env, s, call);
    lemma_builtin_names();
    if calls_builtin(e, "assert_eq"@, call) {
        lemma_builtin_call(env, s, e, call, "assert_eq"@);
        if let Some((s1, a, b)) = model::lower_first_two(env, s, call) {
            lemma_does(s1, Opcode::AssertEq, seq![a, b]);
        }
    }
    if calls_builtin(e, "static_assert"@, call) {
        lemma_builtin_call(env, s, e, call, "static_assert"@);
        if let Some((s1, a)) = model::lower_first(env, s, call) {
            lemma_does(s1, Opcode::AssertBool, seq![a]);
        }
    }
}

/// A width that is given as a literal is that number: `apply_range_constraint` constrains its first
/// argument to as many bits as its second says, and has no code where that is no literal or is
/// negative.
#[verifier::spinoff_prover]
pub proof fn law_range_constraints_are_as_wide_as_the_literal(
    env: LowerEnv,
    s: LowerState,
    e: Expression,
    call: Call,
    number: ast::SignedField,
    typ: ast::Type,
    n: int,
    order: nat,
)
    requires
        s.code.has_block(s.current),
        calls_builtin(e, "apply_range_constraint"@, call),
        call.arguments@.len() > 1,
        call.arguments@[1].kind == ExpressionKind::Literal(Literal::Integer(number, typ)),
        number.is_number(n, order),
        n <= usize::MAX,
    ensures
        match model::lower_values(env, s, call.arguments@, 1) {
            Some((s1, values)) if n >= 0 => model::lower(env, s, e) matches Some((after, None))
                && does(s1, after, Opcode::RangeCheck(n as usize), values),
            _ => model::lower(env, s, e) is None,
        },
{
    lemma_arguments(env, s, call);
    lemma_builtin_names();
    lemma_builtin_call(env, s, e, call, "apply_range_constraint"@);
    if let Some((s1, a)) = model::lower_first(env, s, call) {
        lemma_does(s1, Opcode::RangeCheck(n as usize), seq![a]);
    }
}

/// A width that is no literal is no width: there is no code for it.
#[verifier::spinoff_prover]
pub proof fn law_widths_are_literals(env: LowerEnv, s: LowerState, e: Expression, call: Call)
    requires
        calls_builtin(e, "apply_range_constraint"@, call) || calls_lowlevel(
            e,
            "spread_inner"@,
            call,
        ) || calls_lowlevel(e, "unspread_inner"@, call),
        call.arguments@.len() < 2 || !(call.arguments@[1].kind matches ExpressionKind::Literal(
            Literal::Integer(_, _),
        )),
    ensures
        model::lower(env, s, e) is None,
{
    lemma_builtin_names();
    lemma_lowlevel_names();
    if calls_builtin(e, "apply_range_constraint"@, call) {
        lemma_builtin_call(env, s, e, call, "apply_range_constraint"@);
    } else if calls_lowlevel(e, "spread_inner"@, call) {
        lemma_lowlevel_call(env, s, e, call, "spread_inner"@);
    } else {
        lemma_lowlevel_call(env, s, e, call, "unspread_inner"@);
    }
}

proof fn lemma_lowlevel_names()
    ensures
        "unsafe_cast"@ != "spread_inner"@,
        "unsafe_cast"@ != "unspread_inner"@,
        "spread_inner"@ != "unspread_inner"@,
{
    reveal_strlit("unsafe_cast");
    reveal_strlit("spread_inner");
    reveal_strlit("unspread_inner");
    assert("unsafe_cast"@.len() == 11 && "spread_inner"@.len() == 12);
    assert("unspread_inner"@.len() == 14);
}

/// The code of a call of a builtin.
proof fn lemma_builtin_call(env: LowerEnv, s: LowerState, e: Expression, call: Call, name: Seq<char>)
    requires
        calls_builtin(e, name, call),
    ensures
        model::lower(env, s, e) == model::lower_builtin_call(env, s, name, call),
{
    assert(model::lower(env, s, e) == model::lower_call(env, s, call));
}

/// The code of a call of a low-level function.
proof fn lemma_lowlevel_call(
    env: LowerEnv,
    s: LowerState,
    e: Expression,
    call: Call,
    name: Seq<char>,
)
    requires
        calls_lowlevel(e, name, call),
    ensures
        model::lower(env, s, e) == model::lower_lowlevel_call(env, s, name, call),
{
    assert(model::lower(env, s, e) == model::lower_call(env, s, call));
}

/// One more instruction without results.
proof fn lemma_does(s: LowerState, op: Opcode, operands: Seq<ValueId>)
    requires
        s.code.has_block(s.current),
    ensures
        does(s, s.emit(op, operands, seq![], 0), op, operands),
{
    let after = s.emit(op, operands, seq![], 0);
    assert(after.code.values =~= s.code.values);
    assert(last(after).results =~= seq![]);
}

/// One more instruction with one result.
proof fn lemma_gives(s: LowerState, op: Opcode, operands: Seq<ValueId>, types: Seq<TypeView>)
    requires
        s.code.has_block(s.current),
    ensures
        gives(s, s.value(op, operands, types).0, s.next(), op, operands, types),
        s.value(op, operands, types).0.code.has_block(s.current),
{
    let after = s.value(op, operands, types).0;
    assert(last(after).results =~= seq![s.next()]);
}

/// `spread_inner` and `unspread_inner` work on as many bits as their second argument, a literal from
/// 1 to 16, says. The first gives one number; the second gives two, the odd and the even bits, in a
/// tuple. Any other number of bits has no code.
#[verifier::spinoff_prover]
pub proof fn law_bits_are_spread_as_the_literal_says(
    env: LowerEnv,
    s: LowerState,
    e: Expression,
    call: Call,
    number: ast::SignedField,
    typ: ast::Type,
    n: int,
    order: nat,
)
    requires
        s.code.has_block(s.current),
        calls_lowlevel(e, "spread_inner"@, call) || calls_lowlevel(e, "unspread_inner"@, call),
        call.arguments@.len() > 1,
        call.arguments@[1].kind == ExpressionKind::Literal(Literal::Integer(number, typ)),
        number.is_number(n, order),
        n <= u32::MAX,
    ensures
        match model::lower_values(env, s, call.arguments@, 1) {
            Some((s1, values)) if 1 <= n <= 16 => {
                &&& model::lower(env, s, e) matches Some((after, Some(result)))
                &&& calls_lowlevel(e, "spread_inner"@, call) ==> gives(
                    s1,
                    after,
                    result,
                    Opcode::Spread(n as u8),
                    values,
                    seq![],
                )
                &&& calls_lowlevel(e, "unspread_inner"@, call) ==> {
                    &&& longer_by(s1, after, 2)
                    &&& last_but_one(after).op == Opcode::Unspread(n as u8)
                    &&& last_but_one(after).operands == values
                    &&& last_but_one(after).results.len() == 2
                    &&& last(after).op == Opcode::MkTuple
                    &&& last(after).operands == last_but_one(after).results
                    &&& last(after).types == seq![TypeView::U(32), TypeView::U(32)]
                    &&& last(after).results == seq![result]
                }
            },
            _ => model::lower(env, s, e) is None,
        },
{
    lemma_arguments(env, s, call);
    lemma_lowlevel_names();
    let name = if calls_lowlevel(e, "spread_inner"@, call) {
        "spread_inner"@
    } else {
        "unspread_inner"@
    };
    lemma_lowlevel_call(env, s, e, call, name);
    if let Some((s1, a)) = model::lower_first(env, s, call) {
        let bits = n as u8;
        lemma_gives(s1, Opcode::Spread(bits), seq![a], seq![]);
        let s2 = s1.emit(Opcode::Unspread(bits), seq![a], seq![], 2);
        let (s3, v) = model::lower_unspread(s1, a, bits);
        assert(last(s3).results =~= seq![v]);
        assert(last_but_one(s3) == last(s2));
    }
}

/// The digits of a number are as many as the array that is returned has elements: those that
/// `to_le_radix` gives start with the least significant one, those that `to_be_radix` gives with the
/// most significant one, in the base that is the second argument. `to_le_bits` and `to_be_bits` give
/// bits in the same way.
#[verifier::spinoff_prover]
pub proof fn law_digits_fill_the_returned_array(
    env: LowerEnv,
    s: LowerState,
    e: Expression,
    call: Call,
    little: bool,
)
    requires
        s.code.has_block(s.current),
    ensures
        ({
            let endianness = if little {
                Endianness::Little
            } else {
                Endianness::Big
            };
            let radix = if little {
                "to_le_radix"@
            } else {
                "to_be_radix"@
            };
            let bits = if little {
                "to_le_bits"@
            } else {
                "to_be_bits"@
            };
            &&& calls_builtin(e, radix, call) ==> match (
                model::lower_values(env, s, call.arguments@, 2),
                call.return_type,
            ) {
                (Some((s1, values)), ast::Type::Array(len, _)) => model::lower(env, s, e) matches Some(
                    (after, Some(result)),
                ) && gives(
                    s1,
                    after,
                    result,
                    Opcode::ToRadix(endianness, len as usize),
                    values,
                    seq![],
                ),
                _ => model::lower(env, s, e) is None,
            }
            &&& calls_builtin(e, bits, call) ==> match (
                model::lower_values(env, s, call.arguments@, 1),
                call.return_type,
            ) {
                (Some((s1, values)), ast::Type::Array(len, _)) => model::lower(env, s, e) matches Some(
                    (after, Some(result)),
                ) && gives(
                    s1,
                    after,
                    result,
                    Opcode::ToBits(endianness, len as usize),
                    values,
                    seq![],
                ),
                _ => model::lower(env, s, e) is None,
            }
        }),
{
    lemma_arguments(env, s, call);
    lemma_builtin_names();
    let (endianness, radix, bits) = if little {
        (Endianness::Little, "to_le_radix"@, "to_le_bits"@)
    } else {
        (Endianness::Big, "to_be_radix"@, "to_be_bits"@)
    };
    if calls_builtin(e, radix, call) {
        lemma_builtin_call(env, s, e, call, radix);
        if let Some((s1, a, b)) = model::lower_first_two(env, s, call) {
            if let ast::Type::Array(len, _) = call.return_type {
                lemma_gives(s1, Opcode::ToRadix(endianness, len as usize), seq![a, b], seq![]);
            }
        }
    }
    if calls_builtin(e, bits, call) {
        lemma_builtin_call(env, s, e, call, bits);
        if let Some((s1, a)) = model::lower_first(env, s, call) {
            if let ast::Type::Array(len, _) = call.return_type {
                lemma_gives(s1, Opcode::ToBits(endianness, len as usize), seq![a], seq![]);
            }
        }
    }
}

/// One constant was added, and nothing else.
pub open spec fn holds_constant(
    s: LowerState,
    after: LowerState,
    result: ValueId,
    constant: ConstantView,
) -> bool {
    &&& result == s.next()
    &&& after.code.values == s.code.values.push(ValueDefView::Constant(constant))
    &&& after.code.blocks == s.code.blocks
    &&& stability::same_scope(s, after)
    &&& after.current == s.current
}

/// The length of an array is a constant of 32 bits, the length that its type gives; the array is
/// converted all the same. The length of a vector is asked of the vector. Nothing else has a length.
#[verifier::spinoff_prover]
pub proof fn law_arrays_are_as_long_as_their_type_says(
    env: LowerEnv,
    s: LowerState,
    e: Expression,
    call: Call,
)
    requires
        s.code.has_block(s.current),
        calls_builtin(e, "array_len"@, call),
    ensures
        call.arguments@.len() == 0 ==> model::lower(env, s, e) is None,
        call.arguments@.len() > 0 ==> match call.arguments@[0].return_type {
            Some(ast::Type::Array(len, _)) => match model::lower(env, s, call.arguments@[0]) {
                Some((s1, _)) => model::lower(env, s, e) matches Some((after, Some(result)))
                    && holds_constant(s1, after, result, ConstantView::U(32, len as u128)),
                None => model::lower(env, s, e) is None,
            },
            Some(ast::Type::Vector(_)) => match model::lower_value(env, s, call.arguments@[0]) {
                Some((s1, vector)) => model::lower(env, s, e) matches Some((after, Some(result)))
                    && gives(s1, after, result, Opcode::SliceLen, seq![vector], seq![]),
                None => model::lower(env, s, e) is None,
            },
            _ => model::lower(env, s, e) is None,
        },
{
    lemma_builtin_names();
    lemma_builtin_call(env, s, e, call, "array_len"@);
    if call.arguments@.len() > 0 {
        lemma_there(env, s, call.arguments@[0]);
        if let Some((s1, vector)) = model::lower_value(env, s, call.arguments@[0]) {
            lemma_gives(s1, Opcode::SliceLen, seq![vector], seq![]);
        }
    }
}

/// Whether the function is unconstrained is a constant of one bit. What a witness is asked for is
/// converted, and no more. A vector is made of an array by a cast.
#[verifier::spinoff_prover]
pub proof fn law_questions_witnesses_and_vectors(
    env: LowerEnv,
    s: LowerState,
    e: Expression,
    call: Call,
)
    requires
        s.code.has_block(s.current),
    ensures
        calls_builtin(e, "is_unconstrained"@, call) ==> {
            &&& model::lower(env, s, e) matches Some((after, Some(result)))
            &&& holds_constant(
                s,
                after,
                result,
                ConstantView::U(
                    1,
                    if env.in_unconstrained {
                        1
                    } else {
                        0
                    },
                ),
            )
        },
        calls_builtin(e, "as_witness"@, call) ==> if call.arguments@.len() == 0 {
            model::lower(env, s, e) is None
        } else {
            match model::lower(env, s, call.arguments@[0]) {
                Some((s1, _)) => model::lower(env, s, e) == Some((s1, None::<ValueId>)),
                None => model::lower(env, s, e) is None,
            }
        },
        calls_builtin(e, "as_vector"@, call) ==> match model::lower_values(
            env,
            s,
            call.arguments@,
            1,
        ) {
            Some((s1, values)) => model::lower(env, s, e) matches Some((after, Some(result)))
                && gives(
                s1,
                after,
                result,
                Opcode::Cast(CastTarget::ArrayToSlice),
                values,
                seq![],
            ),
            None => model::lower(env, s, e) is None,
        },
{
    lemma_arguments(env, s, call);
    lemma_builtin_names();
    if calls_builtin(e, "is_unconstrained"@, call) {
        lemma_builtin_call(env, s, e, call, "is_unconstrained"@);
    }
    if calls_builtin(e, "as_witness"@, call) {
        lemma_builtin_call(env, s, e, call, "as_witness"@);
    }
    if calls_builtin(e, "as_vector"@, call) {
        lemma_builtin_call(env, s, e, call, "as_vector"@);
        if let Some((s1, a)) = model::lower_first(env, s, call) {
            lemma_gives(s1, Opcode::Cast(CastTarget::ArrayToSlice), seq![a], seq![]);
        }
    }
}

/// `unsafe_cast` is one cast to the type of numbers that is returned, whatever the width of its
/// argument.
#[verifier::spinoff_prover]
pub proof fn law_unsafe_casts_name_the_returned_type(
    env: LowerEnv,
    s: LowerState,
    e: Expression,
    call: Call,
)
    requires
        s.code.has_block(s.current),
        calls_lowlevel(e, "unsafe_cast"@, call),
    ensures
        match model::lower_values(env, s, call.arguments@, 1) {
            Some((s1, values)) if is_number_type(call.return_type) => {
                &&& model::lower(env, s, e) matches Some((after, Some(result)))
                &&& last(after).op matches Opcode::Cast(target)
                &&& cast_type(target) == Some(type_converter::ssa_type(call.return_type))
                &&& gives(s1, after, result, Opcode::Cast(target), values, seq![])
            },
            _ => model::lower(env, s, e) is None,
        },
{
    lemma_arguments(env, s, call);
    lemma_lowlevel_names();
    lemma_lowlevel_call(env, s, e, call, "unsafe_cast"@);
    if let Some((s1, a)) = model::lower_first(env, s, call) {
        if let Some((target, _)) = model::cast_target(call.return_type) {
            lemma_gives(s1, Opcode::Cast(target), seq![a], seq![]);
        }
    }
}

/// One call was added at the end. A function that returns the unit has no result, any other has one.
pub open spec fn calls(
    s: LowerState,
    after: LowerState,
    result: Option<ValueId>,
    op: Opcode,
    operands: Seq<ValueId>,
    return_type: ast::Type,
) -> bool {
    if return_type is Unit {
        result is None && does(s, after, op, operands)
    } else {
        result matches Some(value) && gives(s, after, value, op, operands, seq![])
    }
}

proof fn lemma_calls(s: LowerState, op: Opcode, operands: Seq<ValueId>, return_type: ast::Type)
    requires
        s.code.has_block(s.current),
    ensures
        ({
            let (after, result) = model::lower_call_to(s, op, operands, return_type);
            calls(s, after, result, op, operands, return_type)
        }),
{
    lemma_does(s, op, operands);
    lemma_gives(s, op, operands, seq![]);
}

/// The instruction that calls a function: the code of the function that the program names. It is
/// called as unconstrained where it is so by nature and its caller is constrained.
pub open spec fn is_call_of(env: LowerEnv, function: ast::FuncId, op: Opcode) -> bool {
    &&& env.functions.contains_key(function.0)
    &&& op matches Opcode::Call { function: code, unconstrained }
    &&& code == env.functions[function.0]
    &&& unconstrained <==> env.natively_unconstrained.contains(function.0) && !env.in_unconstrained
}

/// A function that is called by its identifier, or that stands in for a builtin or a low-level
/// function that the compiler does not implement itself, is called with the values of all the
/// arguments, in order. What has neither code nor a stand-in cannot be called.
#[verifier::spinoff_prover]
pub proof fn law_functions_are_called_with_their_arguments(
    env: LowerEnv,
    s: LowerState,
    e: Expression,
    call: Call,
    ident: Ident,
)
    requires
        s.code.has_block(s.current),
        e.kind == ExpressionKind::Call(call),
        call.func.kind == ExpressionKind::Ident(ident),
    ensures
        ({
            let called = match ident.definition {
                Definition::Function(function) => Some(function),
                Definition::Builtin(name) => model::replacement_for(env, name@, call.return_type),
                Definition::LowLevel(name) => model::replacement_for(env, name@, call.return_type),
                _ => None,
            };
            let own = match ident.definition {
                Definition::Builtin(name) => name@ == "assert_eq"@ || name@ == "static_assert"@
                    || name@ == "array_len"@ || name@ == "to_le_radix"@ || name@ == "to_be_radix"@
                    || name@ == "apply_range_constraint"@ || name@ == "is_unconstrained"@ || name@
                    == "as_witness"@ || name@ == "to_le_bits"@ || name@ == "to_be_bits"@ || name@
                    == "as_vector"@,
                Definition::LowLevel(name) => name@ == "unsafe_cast"@ || name@ == "spread_inner"@
                    || name@ == "unspread_inner"@,
                Definition::Oracle(name) => name@ == "print"@,
                _ => false,
            };
            !own ==> match (called, model::lower_values(env, s, call.arguments@, call.arguments@.len())) {
                (Some(function), Some((s1, values))) => if env.functions.contains_key(function.0) {
                    &&& model::lower(env, s, e) matches Some((after, result))
                    &&& is_call_of(env, function, last(after).op)
                    &&& calls(s1, after, result, last(after).op, values, call.return_type)
                } else {
                    model::lower(env, s, e) is None
                },
                _ => model::lower(env, s, e) is None,
            }
        }),
{
    lemma_all_there(env, s, call.arguments@);
    lemma_builtin_names();
    assert(model::lower(env, s, e) == model::lower_call(env, s, call));
    match ident.definition {
        Definition::Builtin(name) => {
            assert(model::lower_call(env, s, call) == model::lower_builtin_call(env, s, name@, call));
            if model::builtin(name@) is None {
                assert(model::lower_call(env, s, call) == model::lower_replacement_call(
                    env,
                    s,
                    name@,
                    call,
                ));
            }
        },
        Definition::LowLevel(name) => {
            assert(model::lower_call(env, s, call) == model::lower_lowlevel_call(
                env,
                s,
                name@,
                call,
            ));
            if !model::is_intrinsic(name@) {
                assert(model::lower_call(env, s, call) == model::lower_replacement_call(
                    env,
                    s,
                    name@,
                    call,
                ));
            }
        },
        Definition::Function(function) => {
            assert(model::lower_call(env, s, call) == model::lower_static_call(
                env,
                s,
                function,
                call,
            ));
        },
        _ => {},
    }
    if let Some((s1, values)) = model::lower_values(env, s, call.arguments@, call.arguments@.len()) {
        let called = match ident.definition {
            Definition::Function(function) => Some(function),
            Definition::Builtin(name) => model::replacement_for(env, name@, call.return_type),
            Definition::LowLevel(name) => model::replacement_for(env, name@, call.return_type),
            _ => None,
        };
        if let Some(function) = called {
            lemma_calls(s1, meaning::call_opcode(env, function), values, call.return_type);
        }
    }
}

/// Printing adds nothing to the code. What is called by what an expression gives, and not by a name,
/// is called through that, which is converted after the arguments.
#[verifier::spinoff_prover]
pub proof fn law_printing_and_calls_through_pointers(
    env: LowerEnv,
    s: LowerState,
    e: Expression,
    call: Call,
)
    requires
        s.code.has_block(s.current),
        e.kind == ExpressionKind::Call(call),
    ensures
        call.func.kind matches ExpressionKind::Ident(ident) && ident.definition matches Definition::Oracle(
            name,
        ) && name@ == "print"@ ==> model::lower(env, s, e) == Some((s, None::<ValueId>)),
        !(call.func.kind is Ident) ==> match model::lower_values(
            env,
            s,
            call.arguments@,
            call.arguments@.len(),
        ) {
            Some((s1, values)) => match model::lower_value(env, s1, *call.func) {
                Some((s2, pointer)) => model::lower(env, s, e) matches Some((after, result))
                    && calls(
                    s2,
                    after,
                    result,
                    Opcode::CallIndirect,
                    seq![pointer] + values,
                    call.return_type,
                ),
                None => model::lower(env, s, e) is None,
            },
            None => model::lower(env, s, e) is None,
        },
{
    lemma_all_there(env, s, call.arguments@);
    assert(model::lower(env, s, e) == model::lower_call(env, s, call));
    if let Some((s1, values)) = model::lower_values(env, s, call.arguments@, call.arguments@.len()) {
        lemma_there(env, s1, *call.func);
        if let Some((s2, pointer)) = model::lower_value(env, s1, *call.func) {
            lemma_calls(s2, Opcode::CallIndirect, seq![pointer] + values, call.return_type);
        }
    }
}

/// Only what is registered stands in for anything: one function whatever is returned, or, where
/// there is one for each size, the one for the length of the array that is returned, whatever its
/// elements are.
pub proof fn law_stand_ins_are_those_that_are_registered(
    env: LowerEnv,
    name: Seq<char>,
    return_type: ast::Type,
)
    ensures
        match model::replacement_for(env, name, return_type) {
            Some(function) => env.replacements.contains_key(name) && (
            env.replacements[name] == LowLevelReplacementView::Single(function) || (
            env.replacements[name] matches LowLevelReplacementView::ByArraySize(sizes)
                && return_type matches ast::Type::Array(size, _) && sizes.contains_key(size)
                && sizes[size] == function)),
            None => env.replacements.contains_key(name) ==> {
                &&& env.replacements[name] matches LowLevelReplacementView::ByArraySize(sizes)
                &&& return_type matches ast::Type::Array(size, _) ==> !sizes.contains_key(size)
            },
        },
{
}

/// A global is read from its slot, at the type that its name has; the name of a function is a
/// constant pointer to its code; a mutable local is read through the pointer that it is bound to;
/// any other local is the value that it is bound to. Other names have no value of their own.
#[verifier::spinoff_prover]
pub proof fn law_names_are_read(env: LowerEnv, s: LowerState, e: Expression, ident: Ident)
    requires
        s.code.has_block(s.current),
        e.kind == ExpressionKind::Ident(ident),
    ensures
        match ident.definition {
            Definition::Global(global) => if env.global_slots.contains_key(global.0) {
                &&& model::lower(env, s, e) matches Some((after, Some(result)))
                &&& gives(
                    s,
                    after,
                    result,
                    Opcode::ReadGlobal(env.global_slots[global.0] as u64),
                    seq![],
                    seq![type_converter::ssa_type(ident.typ)],
                )
            } else {
                model::lower(env, s, e) is None
            },
            Definition::Function(function) => if env.functions.contains_key(function.0) {
                &&& model::lower(env, s, e) matches Some((after, Some(result)))
                &&& holds_constant(
                    s,
                    after,
                    result,
                    ConstantView::FnPtr(env.functions[function.0]),
                )
            } else {
                model::lower(env, s, e) is None
            },
            Definition::Local(local) => if !s.bindings.contains_key(local.0) {
                model::lower(env, s, e) is None
            } else if s.mutable_locals.contains(local.0) {
                &&& model::lower(env, s, e) matches Some((after, Some(result)))
                &&& gives(s, after, result, Opcode::Load, seq![s.bindings[local.0]], seq![])
            } else {
                model::lower(env, s, e) == Some((s, Some(s.bindings[local.0])))
            },
            _ => model::lower(env, s, e) is None,
        },
{
    match ident.definition {
        Definition::Global(global) => {
            let slot = env.global_slots[global.0];
            lemma_gives(
                s,
                Opcode::ReadGlobal(slot as u64),
                seq![],
                seq![type_converter::ssa_type(ident.typ)],
            );
        },
        Definition::Local(local) => {
            lemma_gives(s, Opcode::Load, seq![s.bindings[local.0]], seq![]);
        },
        _ => {},
    }
}

/// A literal that is a number, or a truth value, is one constant, whose type is the type of the
/// literal. The unit is nothing.
#[verifier::spinoff_prover]
pub proof fn law_literals_are_constants_of_their_type(
    env: LowerEnv,
    s: LowerState,
    e: Expression,
    literal: Literal,
)
    requires
        e.kind == ExpressionKind::Literal(literal),
    ensures
        match literal {
            Literal::Bool(b) => {
                &&& model::lower(env, s, e) matches Some((after, Some(result)))
                &&& holds_constant(
                    s,
                    after,
                    result,
                    ConstantView::U(
                        1,
                        if b {
                            1
                        } else {
                            0
                        },
                    ),
                )
            },
            Literal::Integer(number, typ) => model::lower(env, s, e) matches Some((after, result))
                ==> {
                &&& is_number_type(typ)
                &&& result is Some
                &&& after.code.values.len() == s.code.values.len() + 1
                &&& after.code.values.last() matches ValueDefView::Constant(constant)
                &&& holds_constant(s, after, result->0, constant)
                &&& constant_type(constant) == type_converter::ssa_type(typ)
            },
            Literal::Unit => model::lower(env, s, e) == Some((s, None::<ValueId>)),
            _ => true,
        },
{
    assert(model::lower(env, s, e) == model::lower_literal(env, s, literal));
}

/// A number that its type can hold, as an integer or a truth value, has code, and the constant holds
/// the number: a negative one in two's complement, in the bits of its type. A number of the field
/// always has code; its constant is below the modulus and differs from the element that the source
/// field has by a multiple of it.
#[verifier::spinoff_prover]
pub proof fn law_numbers_are_held_exactly(
    env: LowerEnv,
    s: LowerState,
    e: Expression,
    number: ast::SignedField,
    typ: ast::Type,
    n: int,
    order: nat,
)
    requires
        e.kind == ExpressionKind::Literal(Literal::Integer(number, typ)),
        number.is_number(n, order),
    ensures
        match typ {
            ast::Type::Field => {
                &&& model::lower(env, s, e) matches Some((after, Some(_)))
                &&& after.code.values.last() matches ValueDefView::Constant(ConstantView::Field(x))
                &&& x < field::modulus()
                &&& (n % (order as int) - x) % (field::modulus() as int) == 0
            },
            ast::Type::Integer(Signedness::Signed, size) => if size.bits() < 128 && i128::MIN <= n
                <= i128::MAX {
                &&& model::lower(env, s, e) matches Some((after, Some(_)))
                &&& after.code.values.last() matches ValueDefView::Constant(ConstantView::I(bits, x))
                &&& bits == size.bits()
                &&& x < pow2(bits as nat)
                &&& (n - x) % (pow2(bits as nat) as int) == 0
            } else {
                model::lower(env, s, e) is None
            },
            ast::Type::Integer(Signedness::Unsigned, size) => if 0 <= n <= u128::MAX {
                &&& model::lower(env, s, e) matches Some((after, Some(_)))
                &&& after.code.values.last() == ValueDefView::Constant(
                    ConstantView::U(size.bits(), n as u128),
                )
            } else {
                model::lower(env, s, e) is None
            },
            ast::Type::Bool => if 0 <= n <= u128::MAX {
                &&& model::lower(env, s, e) matches Some((after, Some(_)))
                &&& after.code.values.last() == ValueDefView::Constant(
                    ConstantView::U(1, n as u128),
                )
            } else {
                model::lower(env, s, e) is None
            },
            _ => model::lower(env, s, e) is None,
        },
{
    let literal = Literal::Integer(number, typ);
    assert(model::lower(env, s, e) == model::lower_literal(env, s, literal));
    match typ {
        ast::Type::Field => {
            let element = field::le_value(number.field_element.le_bytes@);
            let x = element % field::modulus();
            vstd::arithmetic::div_mod::lemma_fundamental_div_mod(
                element as int,
                field::modulus() as int,
            );
            let q = element as int / field::modulus() as int;
            assert(element - x == q * field::modulus()) by (nonlinear_arith)
                requires
                    element == field::modulus() * q + x,
            ;
            vstd::arithmetic::div_mod::lemma_mod_multiples_basic(q, field::modulus() as int);
        },
        ast::Type::Integer(Signedness::Signed, size) => {
            let bits = size.bits() as nat;
            if size.bits() < 128 && i128::MIN <= n <= i128::MAX {
                assert(pow2(bits) <= u128::MAX) by {
                    lemma2_to64();
                }
                lemma_pow2_pos(bits);
                let modulus = pow2(bits) as int;
                let x = n % modulus;
                assert(0 <= x < modulus) by {
                    vstd::arithmetic::div_mod::lemma_mod_bound(n, modulus);
                }
                vstd::arithmetic::div_mod::lemma_fundamental_div_mod(n, modulus);
                let q = n / modulus;
                assert(n - x == q * modulus) by (nonlinear_arith)
                    requires
                        n == modulus * q + x,
                ;
                vstd::arithmetic::div_mod::lemma_mod_multiples_basic(q, modulus);
            }
        },
        _ => {},
    }
}

/// The kind of sequence that a type asks for: an array of its length, or a slice.
pub open spec fn sequence_type(target: SequenceTargetType, element: TypeView) -> TypeView {
    match target {
        SequenceTargetType::Array(len) => TypeView::Array(Box::new(element), len),
        SequenceTargetType::Slice => TypeView::Slice(Box::new(element)),
    }
}

/// An array or a vector is one sequence of the values of its elements, in order. The instruction
/// names the type of the literal.
#[verifier::spinoff_prover]
pub proof fn law_sequences_are_of_their_type(
    env: LowerEnv,
    s: LowerState,
    e: Expression,
    array: ast::ArrayLiteral,
)
    requires
        s.code.has_block(s.current),
        e.kind == ExpressionKind::Literal(Literal::Array(array)) || e.kind
            == ExpressionKind::Literal(Literal::Vector(array)),
    ensures
        match model::lower_values(env, s, array.contents@, array.contents@.len()) {
            Some((s1, values)) if array.typ is Array || array.typ is Vector => {
                &&& model::lower(env, s, e) matches Some((after, Some(result)))
                &&& last(after).op matches Opcode::MkSeq(target)
                &&& last(after).types.len() == 1
                &&& sequence_type(target, last(after).types[0]) == type_converter::ssa_type(array.typ)
                &&& gives(s1, after, result, Opcode::MkSeq(target), values, last(after).types)
            },
            _ => model::lower(env, s, e) is None,
        },
{
    lemma_all_there(env, s, array.contents@);
    let literal = if e.kind == ExpressionKind::Literal(Literal::Array(array)) {
        Literal::Array(array)
    } else {
        Literal::Vector(array)
    };
    assert(model::lower(env, s, e) == model::lower_literal(env, s, literal));
    assert(model::lower_literal(env, s, literal) == model::lower_array(env, s, array));
    if let Some((s1, values)) = model::lower_values(env, s, array.contents@, array.contents@.len()) {
        if let Some(inner) = model::element_type(array.typ) {
            let target = match array.typ {
                ast::Type::Array(len, _) => SequenceTargetType::Array(len as usize),
                _ => SequenceTargetType::Slice,
            };
            lemma_gives(s1, Opcode::MkSeq(target), values, seq![type_converter::ssa_type(inner)]);
        }
    }
}

/// A repeated literal converts its element once, and repeats it as often as it says: in an array of
/// that length or, where it is a vector, in a slice.
#[verifier::spinoff_prover]
pub proof fn law_repeated_elements_are_repeated(
    env: LowerEnv,
    s: LowerState,
    e: Expression,
    element: Box<Expression>,
    length: u32,
    is_vector: bool,
    typ: ast::Type,
)
    requires
        s.code.has_block(s.current),
        e.kind == ExpressionKind::Literal(Literal::Repeated { element, length, is_vector, typ }),
    ensures
        match (
            model::lower_value(env, s, *element),
            match typ {
                ast::Type::Array(_, inner) => Some(inner),
                ast::Type::Vector(inner) => Some(inner),
                _ => None,
            },
        ) {
            (Some((s1, value)), Some(inner)) => {
                &&& model::lower(env, s, e) matches Some((after, Some(result)))
                &&& last(after).op matches Opcode::MkRepeated(target, count)
                &&& count == length
                &&& is_vector ==> target == SequenceTargetType::Slice
                &&& !is_vector ==> target == SequenceTargetType::Array(count)
                &&& gives(
                    s1,
                    after,
                    result,
                    Opcode::MkRepeated(target, count),
                    seq![value],
                    seq![type_converter::ssa_type(*inner)],
                )
            },
            _ => model::lower(env, s, e) is None,
        },
{
    lemma_there(env, s, *element);
    let literal = Literal::Repeated { element, length, is_vector, typ };
    assert(model::lower(env, s, e) == model::lower_literal(env, s, literal));
    if let Some((s1, value)) = model::lower_value(env, s, *element) {
        if let Some(inner) = model::element_type(typ) {
            let target = if is_vector {
                SequenceTargetType::Slice
            } else {
                SequenceTargetType::Array(length as usize)
            };
            lemma_gives(
                s1,
                Opcode::MkRepeated(target, length as usize),
                seq![value],
                seq![type_converter::ssa_type(inner)],
            );
        }
    }
}

/// A tuple is one tuple of the values of its fields, in order, each at the type of its expression;
/// the name of a function is at the type of functions whatever it is said to be.
#[verifier::spinoff_prover]
pub proof fn law_tuples_are_of_the_types_of_their_fields(
    env: LowerEnv,
    s: LowerState,
    e: Expression,
    exprs: Vec<Expression>,
)
    requires
        s.code.has_block(s.current),
        e.kind == ExpressionKind::Tuple(exprs),
    ensures
        match model::lower_values(env, s, exprs@, exprs@.len()) {
            None => model::lower(env, s, e) is None,
            Some((s1, values)) => match model::lower(env, s, e) {
                Some((after, result)) => {
                    &&& result is Some
                    &&& last(after).types.len() == exprs@.len()
                    &&& forall|i: int|
                        0 <= i < exprs@.len() ==> (#[trigger] last(after).types[i]) == (
                        if exprs@[i].kind matches ExpressionKind::Ident(ident) && ident.definition is Function {
                            TypeView::Function
                        } else {
                            type_converter::ssa_type(exprs@[i].return_type->0)
                        })
                    &&& gives(s1, after, result->0, Opcode::MkTuple, values, last(after).types)
                },
                None => exists|i: int|
                    0 <= i < exprs@.len() && (#[trigger] exprs@[i]).return_type is None,
            },
        },
{
    lemma_all_there(env, s, exprs@);
    assert(model::lower(env, s, e) == model::lower_tuple(env, s, exprs));
    if let Some((s1, values)) = model::lower_values(env, s, exprs@, exprs@.len()) {
        lemma_gives(s1, Opcode::MkTuple, values, model::field_types(exprs@));
        if !model::all_fields_typed(exprs@) {
            let i = choose|i: int|
                0 <= i < exprs@.len() && !(model::field_type(#[trigger] exprs@[i]) is Some);
            assert(exprs@[i].return_type is None);
        }
    }
}

/// The constants that are added one after the other are the values that come next, in order, and
/// nothing else changes.
proof fn lemma_constants_added(s: LowerState, constants: Seq<ConstantView>)
    requires
        s.code.values.len() + constants.len() <= usize::MAX,
    ensures
        ({
            let (after, values) = model::lower_constants(s, constants);
            &&& values.len() == constants.len()
            &&& after.code.blocks == s.code.blocks
            &&& after.current == s.current
            &&& after.code.values.len() == s.code.values.len() + constants.len()
            &&& s.code.values.is_prefix_of(after.code.values)
            &&& forall|i: int|
                0 <= i < constants.len() ==> is_constant(
                    after,
                    #[trigger] values[i],
                    constants[i],
                )
        }),
    decreases constants.len(),
{
    if constants.len() > 0 {
        lemma_constants_added(s, constants.drop_last());
        let (before, values) = model::lower_constants(s, constants.drop_last());
        let (after, all) = model::lower_constants(s, constants);
        assert forall|i: int| 0 <= i < constants.len() implies is_constant(
            after,
            #[trigger] all[i],
            constants[i],
        ) by {
            if i < constants.len() - 1 {
                assert(all[i] == values[i]);
                assert(is_constant(before, values[i], constants.drop_last()[i]));
            }
        }
    }
}

/// A text is an array of its UTF-8 bytes, each a constant of eight bits.
#[verifier::spinoff_prover]
pub proof fn law_texts_are_their_bytes(env: LowerEnv, s: LowerState, e: Expression, text: String)
    requires
        s.code.has_block(s.current),
        e.kind == ExpressionKind::Literal(Literal::Str(text)),
        s.code.values.len() + encode_utf8(text@).len() < usize::MAX,
    ensures
        ({
            let bytes = encode_utf8(text@);
            &&& model::lower(env, s, e) matches Some((after, Some(result)))
            &&& longer_by(s, after, 1)
            &&& last(after).op == Opcode::MkSeq(SequenceTargetType::Array(bytes.len() as usize))
            &&& last(after).types == seq![TypeView::U(8)]
            &&& last(after).results == seq![result]
            &&& last(after).operands.len() == bytes.len()
            &&& forall|i: int|
                0 <= i < bytes.len() ==> is_constant(
                    after,
                    #[trigger] last(after).operands[i],
                    ConstantView::U(8, bytes[i] as u128),
                )
        }),
{
    let bytes = encode_utf8(text@);
    let constants = model::utf8_bytes(text@);
    assert(model::lower(env, s, e) == model::lower_literal(env, s, Literal::Str(text)));
    lemma_constants_added(s, constants);
    let (s1, values) = model::lower_constants(s, constants);
    let op = Opcode::MkSeq(SequenceTargetType::Array(bytes.len() as usize));
    lemma_gives(s1, op, values, seq![TypeView::U(8)]);
    let after = s1.value(op, values, seq![TypeView::U(8)]).0;
    assert forall|i: int| 0 <= i < bytes.len() implies is_constant(
        after,
        #[trigger] last(after).operands[i],
        ConstantView::U(8, bytes[i] as u128),
    ) by {
        assert(is_constant(s1, values[i], constants[i]));
    }
}

/// What a piece of a format string is written as.
pub open spec fn piece(fragment: FmtStrFragment) -> Seq<char> {
    match fragment {
        FmtStrFragment::String(text) => text@,
        FmtStrFragment::Interpolation(name) => seq!['{'] + name@ + seq!['}'],
    }
}

/// The text of a format string is what its pieces are written as, one after the other.
pub proof fn law_format_strings_are_written_in_order(fragments: Seq<FmtStrFragment>)
    ensures
        model::format_text(fragments) == fragments.map_values(
            |f: FmtStrFragment| piece(f),
        ).flatten(),
    decreases fragments.len(),
{
    let pieces = fragments.map_values(|f: FmtStrFragment| piece(f));
    pieces.lemma_flatten_and_flatten_alt_are_equivalent();
    if fragments.len() > 0 {
        law_format_strings_are_written_in_order(fragments.drop_last());
        let fewer = fragments.drop_last().map_values(|f: FmtStrFragment| piece(f));
        fewer.lemma_flatten_and_flatten_alt_are_equivalent();
        assert(fewer =~= pieces.drop_last());
    } else {
        assert(pieces =~= seq![]);
    }
}

/// A format string without captures is a tuple of its text alone: an array of code points, each a
/// constant of 32 bits.
#[verifier::spinoff_prover]
pub proof fn law_format_strings_are_their_code_points(
    env: LowerEnv,
    s: LowerState,
    e: Expression,
    fragments: Vec<FmtStrFragment>,
    captures: Box<Expression>,
)
    requires
        s.code.has_block(s.current),
        e.kind == ExpressionKind::Literal(Literal::FmtStr(fragments, captures)),
        !(captures.kind is Tuple),
        s.code.values.len() + fragments@.map_values(
            |f: FmtStrFragment| piece(f),
        ).flatten().len() + 2 <= usize::MAX,
    ensures
        ({
            let text = fragments@.map_values(|f: FmtStrFragment| piece(f)).flatten();
            &&& model::lower(env, s, e) matches Some((after, Some(result)))
            &&& longer_by(s, after, 2)
            &&& last(after).op == Opcode::MkTuple
            &&& last(after).operands == last_but_one(after).results
            &&& last(after).results == seq![result]
            &&& last(after).types == seq![
                TypeView::Array(Box::new(TypeView::U(32)), text.len() as usize),
            ]
            &&& last_but_one(after).op == Opcode::MkSeq(
                SequenceTargetType::Array(text.len() as usize),
            )
            &&& last_but_one(after).types == seq![TypeView::U(32)]
            &&& last_but_one(after).operands.len() == text.len()
            &&& forall|i: int|
                0 <= i < text.len() ==> is_constant(
                    after,
                    #[trigger] last_but_one(after).operands[i],
                    ConstantView::U(32, text[i] as u128),
                )
        }),
{
    law_format_strings_are_written_in_order(fragments@);
    let text = model::format_text(fragments@);
    let constants = model::code_points(text);
    assert(model::lower(env, s, e) == model::lower_literal(
        env,
        s,
        Literal::FmtStr(fragments, captures),
    ));
    lemma_constants_added(s, constants);
    let (s1, values) = model::lower_constants(s, constants);
    let op = Opcode::MkSeq(SequenceTargetType::Array(text.len() as usize));
    lemma_gives(s1, op, values, seq![TypeView::U(32)]);
    let (s2, v) = s1.value(op, values, seq![TypeView::U(32)]);
    let types = seq![TypeView::Array(Box::new(TypeView::U(32)), text.len() as usize)];
    lemma_gives(s2, Opcode::MkTuple, seq![v], types);
    let after = s2.value(Opcode::MkTuple, seq![v], types).0;
    assert(last_but_one(after) == last(s2));
    assert forall|i: int| 0 <= i < text.len() implies is_constant(
        after,
        #[trigger] last_but_one(after).operands[i],
        ConstantView::U(32, text[i] as u128),
    ) by {
        assert(is_constant(s1, values[i], constants[i]));
    }
}

/// What a format string captures stands in the tuple after its text, each part at the type of its
/// expression. The type of the whole is that of the text and those of the parts.
#[verifier::spinoff_prover]
pub proof fn law_captures_follow_the_text(
    env: LowerEnv,
    s: LowerState,
    e: Expression,
    fragments: Vec<FmtStrFragment>,
    captures: Box<Expression>,
    exprs: Vec<Expression>,
)
    requires
        s.code.has_block(s.current),
        e.kind == ExpressionKind::Literal(Literal::FmtStr(fragments, captures)),
        captures.kind == ExpressionKind::Tuple(exprs),
        model::lower(env, s, e) is Some,
    ensures
        ({
            let text = fragments@.map_values(|f: FmtStrFragment| piece(f)).flatten();
            &&& model::lower(env, s, e) matches Some((after, Some(result)))
            &&& last(after).op == Opcode::MkTuple
            &&& last(after).results == seq![result]
            &&& last(after).operands.len() == exprs@.len() + 1
            &&& last(after).types.len() == exprs@.len() + 1
            &&& last(after).types[0] == TypeView::Array(
                Box::new(TypeView::U(32)),
                text.len() as usize,
            )
            &&& forall|i: int|
                0 <= i < exprs@.len() ==> (#[trigger] exprs@[i]).return_type is Some && last(
                    after,
                ).types[i + 1] == type_converter::ssa_type(exprs@[i].return_type->0)
        }),
{
    law_format_strings_are_written_in_order(fragments@);
    let text = model::format_text(fragments@);
    let points = model::code_points(text);
    assert(model::lower(env, s, e) == model::lower_literal(
        env,
        s,
        Literal::FmtStr(fragments, captures),
    ));
    stability::lemma_constants_add(s, points);
    let (s0, constants) = model::lower_constants(s, points);
    frame::lemma_has_block(s, s0);
    let (s1, v) = model::lower_constant_array(s, points, TypeView::U(32));
    let op = Opcode::MkSeq(SequenceTargetType::Array(points.len() as usize));
    lemma_gives(s0, op, constants, seq![TypeView::U(32)]);
    lemma_all_there(env, s1, exprs@);
    let (s2, values) = model::lower_values(env, s1, exprs@, exprs@.len())->0;
    lemma_values_count(env, s1, exprs@, exprs@.len());
    let text_type = TypeView::Array(Box::new(TypeView::U(32)), points.len() as usize);
    let types = seq![text_type] + model::expr_types(exprs@);
    lemma_gives(s2, Opcode::MkTuple, seq![v] + values, types);
    assert forall|i: int| 0 <= i < exprs@.len() implies (#[trigger] exprs@[i]).return_type is Some
        && types[i + 1] == type_converter::ssa_type(exprs@[i].return_type->0) by {}
}

/// As many values as expressions.
proof fn lemma_values_count(env: LowerEnv, s: LowerState, exprs: Seq<Expression>, n: nat)
    ensures
        model::lower_values(env, s, exprs, n) matches Some((_, values)) ==> values.len() == n,
    decreases n,
{
    if 0 < n <= exprs.len() {
        lemma_values_count(env, s, exprs, (n - 1) as nat);
    }
}

/// A fresh pointer to a value of a type, through which that value has been written.
pub open spec fn points_to(
    s: LowerState,
    after: LowerState,
    pointer: ValueId,
    value: ValueId,
    typ: TypeView,
) -> bool {
    &&& longer_by(s, after, 2)
    &&& last_but_one(after) == (InstructionView {
        op: Opcode::Alloc,
        results: seq![pointer],
        operands: seq![],
        types: seq![typ],
    })
    &&& last(after) == (InstructionView {
        op: Opcode::Store,
        results: seq![],
        operands: seq![pointer, value],
        types: seq![],
    })
}

proof fn lemma_points_to(s: LowerState, value: ValueId, typ: TypeView)
    requires
        s.code.has_block(s.current),
    ensures
        ({
            let (s1, pointer) = s.value(Opcode::Alloc, seq![], seq![typ]);
            let after = s1.emit(Opcode::Store, seq![pointer, value], seq![], 0);
            points_to(s, after, pointer, value, typ)
        }),
{
    lemma_gives(s, Opcode::Alloc, seq![], seq![typ]);
    let (s1, pointer) = s.value(Opcode::Alloc, seq![], seq![typ]);
    lemma_does(s1, Opcode::Store, seq![pointer, value]);
    let after = s1.emit(Opcode::Store, seq![pointer, value], seq![], 0);
    assert(last_but_one(after) == last(s1));
}

/// A mutable variable is bound to a fresh pointer to a value of the type of its first one; any other
/// variable is bound to its value itself. What has no value counts as the empty tuple. A `let`
/// changes what its one variable is bound to, and gives nothing.
#[verifier::spinoff_prover]
pub proof fn law_variables_are_bound(env: LowerEnv, s: LowerState, e: Expression, binding: Let)
    requires
        s.code.has_block(s.current),
        e.kind == ExpressionKind::Let(binding),
    ensures
        match model::lower(env, s, *binding.expression) {
            None => model::lower(env, s, e) is None,
            Some((s1, Some(value))) => if binding.mutable {
                match binding.expression.return_type {
                    Some(typ) => {
                        &&& model::lower(env, s, e) matches Some((after, None))
                        &&& after.bindings.contains_key(binding.id.0)
                        &&& points_to(
                            s1,
                            after,
                            after.bindings[binding.id.0],
                            value,
                            type_converter::ssa_type(typ),
                        )
                        &&& after.mutable_locals == s1.mutable_locals.insert(binding.id.0)
                        &&& after.bindings == s1.bindings.insert(
                            binding.id.0,
                            after.bindings[binding.id.0],
                        )
                    },
                    None => model::lower(env, s, e) is None,
                }
            } else {
                &&& model::lower(env, s, e) matches Some((after, None))
                &&& after.code == s1.code
                &&& after.current == s1.current
                &&& after.mutable_locals == s1.mutable_locals
                &&& after.bindings == s1.bindings.insert(binding.id.0, value)
            },
            Some((s1, None)) => if binding.mutable {
                binding.expression.return_type is Some <==> model::lower(env, s, e) is Some
            } else {
                &&& model::lower(env, s, e) matches Some((after, None))
                &&& after.bindings.contains_key(binding.id.0)
                &&& gives(
                    s1,
                    after,
                    after.bindings[binding.id.0],
                    Opcode::MkTuple,
                    seq![],
                    seq![],
                )
                &&& after.mutable_locals == s1.mutable_locals
            },
        },
{
    lemma_there(env, s, *binding.expression);
    assert(model::lower(env, s, e) == model::lower_let(env, s, binding));
    if let Some((s1, result)) = model::lower(env, s, *binding.expression) {
        if let Some(value) = result {
            if let Some(typ) = binding.expression.return_type {
                lemma_points_to(s1, value, type_converter::ssa_type(typ));
            }
        } else {
            lemma_gives(s1, Opcode::MkTuple, seq![], seq![]);
        }
    }
}

/// A reference to what is no mutable local is a fresh pointer to its value, at the type of that. A
/// reference to a mutable local is the pointer that the local is bound to, and adds no code.
#[verifier::spinoff_prover]
pub proof fn law_references_are_pointers(
    env: LowerEnv,
    s: LowerState,
    e: Expression,
    unary: Unary,
)
    requires
        s.code.has_block(s.current),
        e.kind == ExpressionKind::Unary(unary),
        unary.operator is Reference,
        !unary.skip,
    ensures
        match unary.rhs.kind {
            ExpressionKind::Ident(ident) => match ident.definition {
                Definition::Local(local) => s.mutable_locals.contains(local.0)
                    && s.bindings.contains_key(local.0) ==> model::lower(env, s, e) == Some(
                    (s, Some(s.bindings[local.0])),
                ),
                _ => true,
            },
            _ => true,
        },
        !(unary.rhs.kind is Ident) && !(unary.rhs.kind is ExtractTupleField) ==> match (
            model::lower_value(env, s, *unary.rhs),
            unary.rhs.return_type,
        ) {
            (Some((s1, value)), Some(typ)) => model::lower(env, s, e) matches Some(
                (after, Some(pointer)),
            ) && points_to(s1, after, pointer, value, type_converter::ssa_type(typ)),
            _ => model::lower(env, s, e) is None,
        },
{
    lemma_there(env, s, *unary.rhs);
    assert(model::lower(env, s, e) == model::lower_unary(env, s, unary));
    if let Some((s1, value)) = model::lower_value(env, s, *unary.rhs) {
        if let Some(typ) = unary.rhs.return_type {
            lemma_points_to(s1, value, type_converter::ssa_type(typ));
        }
    }
}

/// A block is empty and can be added to.
pub open spec fn is_empty_block(block: BlockView) -> bool {
    block.instructions.len() == 0 && block.terminator is None
}

/// Control parts where the condition of an `if` has been evaluated: to the first of three new blocks
/// where it holds, to the second where it does not. The third is where the code goes on: it is empty,
/// and takes the value of the `if`, at its type, unless that is the unit.
#[verifier::spinoff_prover]
pub proof fn law_conditions_part_control(
    env: LowerEnv,
    s: LowerState,
    e: Expression,
    if_expr: If,
)
    requires
        stability::settled(s),
        e.kind == ExpressionKind::If(if_expr),
        !meaning::is_known(*if_expr.condition),
        model::lower(env, s, e) matches Some((after, _)) && after.code.blocks.len() <= usize::MAX,
    ensures
        model::lower_value(env, s, *if_expr.condition) is Some,
        ({
            let (after, result) = model::lower(env, s, e)->0;
            let (s1, condition) = model::lower_value(env, s, *if_expr.condition)->0;
            let n = s1.code.blocks.len() as int;
            let join = after.code.blocks[n + 2];
            &&& after.current.0 == n + 2
            &&& after.code.blocks.len() >= n + 3
            &&& after.code.blocks[s1.current.0 as int].terminator == Some(
                TerminatorView::JmpIf(condition, BlockId(n as usize), BlockId((n + 1) as usize)),
            )
            &&& after.code.blocks[s1.current.0 as int].instructions == s1.instructions()
            &&& is_empty_block(join)
            &&& if if_expr.typ is Unit {
                join.parameters.len() == 0 && result is None
            } else {
                result is Some && join.parameters == seq![
                    (result->0, type_converter::ssa_type(if_expr.typ)),
                ]
            }
        }),
{
    let nothing = World { result: |op, operands, heap| None, effect: |op, operands, heap| None };
    let scope = meaning::Scope {
        locals: Map::empty(),
        mutable: Set::empty(),
        hidden: Set::empty(),
        heap: seq![],
    };
    laws::law_decided_conditions_have_that_truth_value(env, nothing, scope, *if_expr.condition);
    assert(model::lower(env, s, e) == model::lower_if(env, s, if_expr));
    let (after, result) = model::lower(env, s, e)->0;
    let (s1, condition) = model::lower_value(env, s, *if_expr.condition)->0;
    let then_block = s1.code.next_block();
    let else_block = s1.add_block().code.next_block();
    let s2 = s1.add_block().add_block().add_block().branch(
        s1.current,
        condition,
        then_block,
        else_block,
    ).at(then_block);
    let (s3, _) = model::lower(env, s2, *if_expr.consequence)->0;
    let s4 = s3.at(else_block);
    let (s5, _) = match if_expr.alternative {
        Some(alternative) => model::lower(env, s4, *alternative)->0,
        None => (s4, None),
    };
    stability::lemma_kept_refl(s);
    stability::lemma_kept_refl(s2);
    stability::lemma_kept_refl(s4);
    frame::lemma_value_kept(s, env, s, *if_expr.condition, 0);
    frame::lemma_has_block(s, s1);
    frame::lemma_lower_kept(s2, env, s2, *if_expr.consequence, 0);
    frame::lemma_has_block(s2, s3);
    if let Some(alternative) = if_expr.alternative {
        frame::lemma_lower_kept(s4, env, s4, *alternative, 0);
    }
    frame::lemma_has_block(s4, s5);
    reveal(stability::kept);
    let n = s1.code.blocks.len() as int;
    assert(s3.code.blocks[s1.current.0 as int] == s2.code.blocks[s1.current.0 as int]);
    assert(s3.code.blocks[n + 1] == s2.code.blocks[n + 1]);
    assert(s3.code.blocks[n + 2] == s2.code.blocks[n + 2]);
    assert(s5.code.blocks[s1.current.0 as int] == s4.code.blocks[s1.current.0 as int]);
    assert(s5.code.blocks[n + 2] == s4.code.blocks[n + 2]);
}

/// A `while` loop goes to the first of three new blocks, its header, which ends with the test, whatever
/// the condition is: to the second where it holds, to the third where it does not. The code goes on
/// in the third, which is empty, and the loops that enclose it are the same.
#[verifier::spinoff_prover]
pub proof fn law_while_loops_test_in_their_header(
    env: LowerEnv,
    s: LowerState,
    e: Expression,
    while_expr: While,
)
    requires
        stability::settled(s),
        e.kind == ExpressionKind::While(while_expr),
        model::lower(env, s, e) matches Some((after, _)) && after.code.blocks.len() <= usize::MAX,
    ensures
        ({
            let (after, result) = model::lower(env, s, e)->0;
            let n = s.code.blocks.len() as int;
            &&& result is None
            &&& after.loops == s.loops
            &&& after.current.0 == n + 2
            &&& after.code.blocks.len() >= n + 3
            &&& after.code.blocks[s.current.0 as int].terminator == Some(
                TerminatorView::Jmp(BlockId(n as usize), seq![]),
            )
            &&& after.code.blocks[s.current.0 as int].instructions == s.instructions()
            &&& after.code.blocks[n].terminator matches Some(TerminatorView::JmpIf(_, inside, outside))
            &&& inside.0 == n + 1
            &&& outside.0 == n + 2
            &&& is_empty_block(after.code.blocks[n + 2])
            &&& after.code.blocks[n + 2].parameters.len() == 0
        }),
{
    assert(model::lower(env, s, e) == model::lower_while(env, s, while_expr));
    let header = s.code.next_block();
    let body = s.add_block().code.next_block();
    let exit = s.add_block().add_block().code.next_block();
    let s1 = s.add_block().add_block().add_block().jump(s.current, header, seq![]).at(header);
    let (s2, cond) = model::lower_value(env, s1, *while_expr.condition)->0;
    let context = LoopContext { loop_header: header, exit_block: exit, for_loop_index: None };
    let s3 = s2.branch(header, cond, body, exit).at(body).enter(context);
    let (s4, _) = model::lower(env, s3, *while_expr.body)->0;
    let n = s.code.blocks.len() as int;
    stability::lemma_kept_refl(s1);
    stability::lemma_kept_refl(s3);
    frame::lemma_value_kept(s1, env, s1, *while_expr.condition, 0);
    frame::lemma_has_block(s1, s2);
    frame::lemma_lower_kept(s3, env, s3, *while_expr.body, 0);
    frame::lemma_has_block(s3, s4);
    reveal(stability::kept);
    assert(s2.code.blocks[s.current.0 as int] == s1.code.blocks[s.current.0 as int]);
    assert(s2.code.blocks[n + 1] == s1.code.blocks[n + 1]);
    assert(s2.code.blocks[n + 2] == s1.code.blocks[n + 2]);
    assert(s4.code.blocks[s.current.0 as int] == s3.code.blocks[s.current.0 as int]);
    assert(s4.code.blocks[n] == s3.code.blocks[n]);
    assert(s4.code.blocks[n + 2] == s3.code.blocks[n + 2]);
    assert(s3.loops.drop_last() =~= s.loops);
}

/// A `loop` goes to the first of two new blocks, its header, where its body starts. The code goes on
/// in the second, which is empty, and the loops that enclose it are the same.
#[verifier::spinoff_prover]
pub proof fn law_loops_go_to_their_header(
    env: LowerEnv,
    s: LowerState,
    e: Expression,
    body: Box<Expression>,
)
    requires
        stability::settled(s),
        e.kind == ExpressionKind::Loop(body),
        model::lower(env, s, e) matches Some((after, _)) && after.code.blocks.len() <= usize::MAX,
    ensures
        ({
            let (after, result) = model::lower(env, s, e)->0;
            let n = s.code.blocks.len() as int;
            &&& result is None
            &&& after.loops == s.loops
            &&& after.current.0 == n + 1
            &&& after.code.blocks.len() >= n + 2
            &&& after.code.blocks[s.current.0 as int].terminator == Some(
                TerminatorView::Jmp(BlockId(n as usize), seq![]),
            )
            &&& after.code.blocks[s.current.0 as int].instructions == s.instructions()
            &&& after.code.blocks[n].parameters.len() == 0
            &&& is_empty_block(after.code.blocks[n + 1])
            &&& after.code.blocks[n + 1].parameters.len() == 0
        }),
{
    assert(model::lower(env, s, e) == model::lower_loop(env, s, *body));
    let header = s.code.next_block();
    let exit = s.add_block().code.next_block();
    let context = LoopContext { loop_header: header, exit_block: exit, for_loop_index: None };
    let s1 = s.add_block().add_block().jump(s.current, header, seq![]).at(header).enter(context);
    let (s2, _) = model::lower(env, s1, *body)->0;
    let n = s.code.blocks.len() as int;
    stability::lemma_kept_refl(s1);
    frame::lemma_lower_kept(s1, env, s1, *body, 0);
    frame::lemma_has_block(s1, s2);
    reveal(stability::kept);
    assert(s2.code.blocks[s.current.0 as int] == s1.code.blocks[s.current.0 as int]);
    assert(s2.code.blocks[n + 1] == s1.code.blocks[n + 1]);
    assert(s1.loops.drop_last() =~= s.loops);
}

/// A `for` loop goes to the first of three new blocks, its header, with the lower bound. The header
/// takes the index, at the type of the index, and does nothing but test whether the index lies below
/// the upper bound: if so it goes to the second block, if not to the third, where the code goes on.
/// An upper bound that is included is first made one more, by a constant of the width of the index.
#[verifier::spinoff_prover]
pub proof fn law_for_loops_count_in_their_header(
    env: LowerEnv,
    s: LowerState,
    e: Expression,
    for_expr: For,
)
    requires
        s.code.has_block(s.current),
        e.kind == ExpressionKind::For(for_expr),
        model::lower(env, s, e) matches Some((after, _)) && after.code.blocks.len() <= usize::MAX
            && after.code.values.len() <= usize::MAX,
        model::lower_value(env, s, *for_expr.start_range) matches Some((s1, _))
            && model::lower_value(env, s1, *for_expr.end_range) matches Some((s2, _))
            && stability::settled(s2),
    ensures
        ({
            let (after, result) = model::lower(env, s, e)->0;
            let (s1, start) = model::lower_value(env, s, *for_expr.start_range)->0;
            let (s2, bound) = model::lower_value(env, s1, *for_expr.end_range)->0;
            let n = s2.code.blocks.len() as int;
            let header = after.code.blocks[n];
            let entry = after.code.blocks[s2.current.0 as int];
            &&& result is None
            &&& after.loops == s.loops
            &&& after.current.0 == n + 2
            &&& after.code.blocks.len() >= n + 3
            &&& entry.terminator == Some(TerminatorView::Jmp(BlockId(n as usize), seq![start]))
            &&& header.parameters.len() == 1
            &&& header.parameters[0].1 == type_converter::ssa_type(for_expr.index_type)
            &&& header.instructions.len() == 1
            &&& header.instructions[0].op == Opcode::Binary(BinaryOp::Lt)
            &&& header.instructions[0].operands.len() == 2
            &&& header.instructions[0].operands[0] == header.parameters[0].0
            &&& header.instructions[0].results.len() == 1
            &&& header.terminator == Some(
                TerminatorView::JmpIf(
                    header.instructions[0].results[0],
                    BlockId((n + 1) as usize),
                    BlockId((n + 2) as usize),
                ),
            )
            &&& is_empty_block(after.code.blocks[n + 2])
            &&& if !for_expr.inclusive {
                entry.instructions == s2.instructions() && header.instructions[0].operands[1]
                    == bound
            } else {
                let more = entry.instructions.last();
                let width = type_converter::ssa_type(for_expr.index_type).bit_size()->0;
                &&& entry.instructions.len() == s2.instructions().len() + 1
                &&& more.op == Opcode::Binary(BinaryOp::Add)
                &&& more.operands.len() == 2
                &&& more.operands[0] == bound
                &&& is_constant(after, more.operands[1], ConstantView::U(width, 1))
                &&& more.results == seq![header.instructions[0].operands[1]]
            }
        }),
{
    assert(model::lower(env, s, e) == model::lower_for(env, s, for_expr));
    let (after, result) = model::lower(env, s, e)->0;
    let (s1, start) = model::lower_value(env, s, *for_expr.start_range)->0;
    let (s2, bound) = model::lower_value(env, s1, *for_expr.end_range)->0;
    let bits = type_converter::ssa_type(for_expr.index_type).bit_size()->0;
    let (s3, end) = if for_expr.inclusive {
        s2.next_index(bound, bits)
    } else {
        (s2, bound)
    };
    let header = s3.code.next_block();
    let body = s3.add_block().code.next_block();
    let exit = s3.add_block().add_block().code.next_block();
    let s4 = s3.add_block().add_block().add_block();
    let index = s4.next();
    let s5 = s4.parameter(header, type_converter::ssa_type(for_expr.index_type)).at(header);
    let (s6, cond) = s5.binary(BinaryOp::Lt, index, end);
    let s7 = s6.branch(header, cond, body, exit).jump(s3.current, header, seq![start]);
    let context = LoopContext {
        loop_header: header,
        exit_block: exit,
        for_loop_index: Some((index, bits)),
    };
    let s8 = s7.at(body).bind(for_expr.index_variable, index).enter(context);
    assert(model::lower_for(env, s, for_expr) == model::lower_for_rest(
        env,
        s3,
        for_expr,
        start,
        end,
        bits,
    ));
    let (s9, _) = model::lower(env, s8, *for_expr.block)->0;
    let n = s2.code.blocks.len() as int;
    stability::lemma_kept_refl(s);
    stability::lemma_kept_refl(s1);
    stability::lemma_kept_refl(s8);
    frame::lemma_value_kept(s, env, s, *for_expr.start_range, 0);
    frame::lemma_has_block(s, s1);
    frame::lemma_value_kept(s1, env, s1, *for_expr.end_range, 0);
    frame::lemma_has_block(s1, s2);
    frame::lemma_lower_kept(s8, env, s8, *for_expr.block, 0);
    frame::lemma_has_block(s8, s9);
    reveal(stability::kept);
    assert(s9.code.blocks[s2.current.0 as int] == s8.code.blocks[s2.current.0 as int]);
    assert(s9.code.blocks[n] == s8.code.blocks[n]);
    assert(s9.code.blocks[n + 2] == s8.code.blocks[n + 2]);
    assert(s8.loops.drop_last() =~= s.loops);
    if for_expr.inclusive {
        let one = s2.next();
        let more = s3.instructions().last();
        assert(more.results =~= seq![end]);
        assert(is_constant(s3, one, ConstantView::U(bits, 1)));
        assert(s8.code.values[one.0 as int] == s3.code.values[one.0 as int]);
        assert(s9.code.values[one.0 as int] == s8.code.values[one.0 as int]);
        assert(after.code.values[one.0 as int] == s9.code.values[one.0 as int]);
    }
}

/// The index of a `for` loop advances by a constant one of its own width.
pub proof fn law_indices_advance_by_one(s: LowerState, index: ValueId, bits: usize)
    requires
        s.code.has_block(s.current),
        s.code.values.len() < usize::MAX,
    ensures
        ({
            let (after, next) = s.next_index(index, bits);
            &&& longer_by(s, after, 1)
            &&& last(after).op == Opcode::Binary(BinaryOp::Add)
            &&& last(after).operands.len() == 2
            &&& last(after).operands[0] == index
            &&& is_constant(after, last(after).operands[1], ConstantView::U(bits, 1))
            &&& last(after).results == seq![next]
        }),
{
    let (s1, one) = s.constant_value(ConstantView::U(bits, 1));
    lemma_gives(s1, Opcode::Binary(BinaryOp::Add), seq![index, one], seq![]);
}

/// The round of a loop ends with a jump to the header of the loop, which takes the index advanced by
/// one where the loop has one, and nothing where it has none.
pub proof fn law_rounds_end_at_the_header(s: LowerState, context: LoopContext)
    requires
        stability::settled(s),
        s.code.values.len() < usize::MAX,
    ensures
        ({
            let after = s.close_round(context);
            let ended = after.code.blocks[s.current.0 as int];
            &&& after.current == s.current
            &&& ended.terminator matches Some(TerminatorView::Jmp(to, args))
            &&& to == context.loop_header
            &&& match context.for_loop_index {
                None => args.len() == 0 && ended.instructions == s.instructions(),
                Some((index, bits)) => {
                    &&& ended.instructions.len() == s.instructions().len() + 1
                    &&& ended.instructions.last().op == Opcode::Binary(BinaryOp::Add)
                    &&& ended.instructions.last().operands.len() == 2
                    &&& ended.instructions.last().operands[0] == index
                    &&& is_constant(
                        after,
                        ended.instructions.last().operands[1],
                        ConstantView::U(bits, 1),
                    )
                    &&& args == ended.instructions.last().results
                },
            }
        }),
{
    if let Some((index, bits)) = context.for_loop_index {
        law_indices_advance_by_one(s, index, bits);
    }
}

/// A block that has been ended, as by `break` or `continue`, is left as it ended.
pub proof fn law_ended_rounds_stay_ended(s: LowerState, context: LoopContext)
    requires
        !s.code.is_open(s.current),
    ensures
        s.close_round(context) == s,
{
}

/// A tuple of which one field is replaced is put together again at the type of the tuple: the new
/// part stands where the field was, and every other field is taken out of the old tuple.
#[verifier::spinoff_prover]
pub proof fn law_tuples_are_put_together_at_their_type(
    s: LowerState,
    whole: ValueId,
    field: usize,
    fields: Vec<ast::Type>,
    part: ValueId,
)
    requires
        s.code.has_block(s.current),
        field < fields@.len(),
        s.code.values.len() + fields@.len() < usize::MAX,
    ensures
        ({
            let typ = ast::Type::Tuple(fields);
            let (after, result) = model::lower_replace_part(
                s,
                whole,
                AccessStep::Field(field),
                typ,
                part,
            );
            let made = last(after);
            &&& made.op == Opcode::MkTuple
            &&& TypeView::Tuple(made.types) == type_converter::ssa_type(typ)
            &&& made.results == seq![result]
            &&& made.operands.len() == fields@.len()
            &&& made.operands[field as int] == part
            &&& after.instructions().len() == s.instructions().len() + fields@.len()
        }),
{
    lemma_fields_taken(s, whole, field, part, fields@.len());
    let (s1, elements) = model::lower_fields(s, whole, field, part, fields@.len());
    lemma_gives(s1, Opcode::MkTuple, elements, type_converter::ssa_types(fields@));
}

proof fn lemma_fields_taken(s: LowerState, tuple: ValueId, replaced: usize, part: ValueId, n: nat)
    requires
        s.code.has_block(s.current),
    ensures
        ({
            let (after, elements) = model::lower_fields(s, tuple, replaced, part, n);
            &&& after.code.has_block(after.current)
            &&& after.current == s.current
            &&& elements.len() == n
            &&& replaced < n ==> elements[replaced as int] == part
            &&& after.instructions().len() == s.instructions().len() + n - (if replaced < n {
                1int
            } else {
                0
            })
        }),
    decreases n,
{
    if n > 0 {
        lemma_fields_taken(s, tuple, replaced, part, (n - 1) as nat);
    }
}

/// An operation on two values has code exactly where both of its operands have values, which are
/// converted from left to right.
#[verifier::spinoff_prover]
pub proof fn law_operations_need_both_operands(
    env: LowerEnv,
    s: LowerState,
    e: Expression,
    binary: ast::Binary,
)
    requires
        s.code.has_block(s.current),
        e.kind == ExpressionKind::Binary(binary),
    ensures
        match model::lower_value(env, s, *binary.lhs) {
            None => model::lower(env, s, e) is None,
            Some((s1, a)) => match model::lower_value(env, s1, *binary.rhs) {
                None => model::lower(env, s, e) is None,
                Some((s2, b)) => {
                    &&& model::lower(env, s, e) matches Some((after, Some(result)))
                    &&& meaning::arithmetic(binary.operator) matches Some(op) ==> gives(
                        s2,
                        after,
                        result,
                        Opcode::Binary(op),
                        seq![a, b],
                        seq![],
                    )
                },
            },
        },
{
    assert(model::lower(env, s, e) == model::lower_binary(env, s, binary));
    lemma_there(env, s, *binary.lhs);
    if let Some((s1, a)) = model::lower_value(env, s, *binary.lhs) {
        lemma_there(env, s1, *binary.rhs);
        if let Some((s2, b)) = model::lower_value(env, s1, *binary.rhs) {
            if let Some(op) = meaning::arithmetic(binary.operator) {
                lemma_gives(s2, Opcode::Binary(op), seq![a, b], seq![]);
            }
        }
    }
}

/// An element and a field are taken out of the collection, or out of what a reference to it points
/// to; there is code exactly where the collection, and the index, have values.
#[verifier::spinoff_prover]
pub proof fn law_parts_are_taken_out(env: LowerEnv, s: LowerState, e: Expression)
    requires
        s.code.has_block(s.current),
    ensures
        match e.kind {
            ExpressionKind::ExtractTupleField(tuple, field) => match model::lower_value(
                env,
                s,
                *tuple,
            ) {
                None => model::lower(env, s, e) is None,
                Some((s1, value)) => {
                    &&& model::lower(env, s, e) matches Some((after, Some(result)))
                    &&& last(after).op == Opcode::TupleProj(field)
                    &&& last(after).results == seq![result]
                    &&& if tuple.return_type matches Some(ast::Type::Reference(_, _)) {
                        &&& longer_by(s1, after, 2)
                        &&& last_but_one(after).op == Opcode::Load
                        &&& last_but_one(after).operands == seq![value]
                        &&& last(after).operands == last_but_one(after).results
                    } else {
                        longer_by(s1, after, 1) && last(after).operands == seq![value]
                    }
                },
            },
            ExpressionKind::Index(index) => match model::lower_value(env, s, *index.collection) {
                None => model::lower(env, s, e) is None,
                Some((s1, value)) => if index.collection.return_type matches Some(
                    ast::Type::Reference(_, _),
                ) {
                    let (s2, whole) = s1.value(Opcode::Load, seq![value], seq![]);
                    match model::lower_value(env, s2, *index.index) {
                        None => model::lower(env, s, e) is None,
                        Some((s3, position)) => model::lower(env, s, e) matches Some(
                            (after, Some(result)),
                        ) && gives(
                            s3,
                            after,
                            result,
                            Opcode::ArrayGet,
                            seq![whole, position],
                            seq![],
                        ),
                    }
                } else {
                    match model::lower_value(env, s1, *index.index) {
                        None => model::lower(env, s, e) is None,
                        Some((s2, position)) => model::lower(env, s, e) matches Some(
                            (after, Some(result)),
                        ) && gives(
                            s2,
                            after,
                            result,
                            Opcode::ArrayGet,
                            seq![value, position],
                            seq![],
                        ),
                    }
                },
            },
            _ => true,
        },
{
    match e.kind {
        ExpressionKind::ExtractTupleField(tuple, field) => {
            assert(model::lower(env, s, e) == model::lower_extract(env, s, *tuple, field));
            lemma_there(env, s, *tuple);
            if let Some((s1, value)) = model::lower_value(env, s, *tuple) {
                let (s2, whole) = s1.load_reference(value, tuple.return_type);
                lemma_gives(s1, Opcode::Load, seq![value], seq![]);
                lemma_gives(s2, Opcode::TupleProj(field), seq![whole], seq![]);
                let after = s2.value(Opcode::TupleProj(field), seq![whole], seq![]).0;
                if tuple.return_type matches Some(ast::Type::Reference(_, _)) {
                    assert(last_but_one(after) == last(s2));
                }
            }
        },
        ExpressionKind::Index(index) => {
            assert(model::lower(env, s, e) == model::lower_index(env, s, index));
            lemma_there(env, s, *index.collection);
            if let Some((s1, value)) = model::lower_value(env, s, *index.collection) {
                lemma_gives(s1, Opcode::Load, seq![value], seq![]);
                let (s2, whole) = s1.load_reference(value, index.collection.return_type);
                lemma_there(env, s2, *index.index);
                if let Some((s3, position)) = model::lower_value(env, s2, *index.index) {
                    lemma_gives(s3, Opcode::ArrayGet, seq![whole, position], seq![]);
                }
            }
        },
        _ => {},
    }
}

/// A constraint asserts what it constrains. A statement is converted for its effect. What is cloned is
/// itself, what is dropped is nothing, and an operation that is marked to be skipped is its operand.
/// A block is converted from its first expression to its last, and gives what the last one does.
#[verifier::spinoff_prover]
pub proof fn law_wrappers_are_what_they_wrap(env: LowerEnv, s: LowerState, e: Expression)
    requires
        s.code.has_block(s.current),
    ensures
        match e.kind {
            ExpressionKind::Constrain(inner) => match model::lower_value(env, s, *inner) {
                Some((s1, value)) => model::lower(env, s, e) matches Some((after, None)) && does(
                    s1,
                    after,
                    Opcode::AssertBool,
                    seq![value],
                ),
                None => model::lower(env, s, e) is None,
            },
            ExpressionKind::Semi(inner) => match model::lower(env, s, *inner) {
                Some((s1, _)) => model::lower(env, s, e) == Some((s1, None::<ValueId>)),
                None => model::lower(env, s, e) is None,
            },
            ExpressionKind::Clone(inner) => model::lower(env, s, e) == model::lower(env, s, *inner),
            ExpressionKind::Drop(_) => model::lower(env, s, e) == Some((s, None::<ValueId>)),
            ExpressionKind::Unary(unary) => if unary.skip {
                model::lower(env, s, e) == model::lower(env, s, *unary.rhs)
            } else if unary.operator is Not || unary.operator is Dereference {
                match model::lower_value(env, s, *unary.rhs) {
                    Some((s1, value)) => model::lower(env, s, e) matches Some(
                        (after, Some(result)),
                    ) && gives(
                        s1,
                        after,
                        result,
                        if unary.operator is Not {
                            Opcode::Not
                        } else {
                            Opcode::Load
                        },
                        seq![value],
                        seq![],
                    ),
                    None => model::lower(env, s, e) is None,
                }
            } else {
                true
            },
            ExpressionKind::Block(exprs) => if exprs@.len() == 0 {
                model::lower(env, s, e) == Some((s, None::<ValueId>))
            } else {
                true
            },
            ExpressionKind::Match => model::lower(env, s, e) is None,
            ExpressionKind::Break => s.loops.len() == 0 ==> model::lower(env, s, e) is None,
            ExpressionKind::Continue => s.loops.len() == 0 ==> model::lower(env, s, e) is None,
            _ => true,
        },
{
    match e.kind {
        ExpressionKind::Constrain(inner) => {
            assert(model::lower(env, s, e) == model::lower_constrain(env, s, *inner));
            lemma_there(env, s, *inner);
            if let Some((s1, value)) = model::lower_value(env, s, *inner) {
                lemma_does(s1, Opcode::AssertBool, seq![value]);
            }
        },
        ExpressionKind::Unary(unary) => {
            assert(model::lower(env, s, e) == model::lower_unary(env, s, unary));
            lemma_there(env, s, *unary.rhs);
            if let Some((s1, value)) = model::lower_value(env, s, *unary.rhs) {
                lemma_gives(s1, Opcode::Not, seq![value], seq![]);
                lemma_gives(s1, Opcode::Load, seq![value], seq![]);
            }
        },
        ExpressionKind::Block(exprs) => {
            assert(model::lower(env, s, e) == model::lower_block(env, s, exprs@, exprs@.len()));
        },
        _ => {},
    }
}

/// The expressions of a block are converted one after the other, each from where the one before it
/// ended: there is code exactly where each of them has code there, and the block gives what the last
/// one gives.
pub proof fn law_blocks_are_converted_in_order(
    env: LowerEnv,
    s: LowerState,
    exprs: Seq<Expression>,
    n: nat,
    m: nat,
)
    requires
        n < m <= exprs.len(),
    ensures
        match model::lower_block(env, s, exprs, n) {
            None => model::lower_block(env, s, exprs, m) is None,
            Some((s1, _)) => if m == n + 1 {
                model::lower_block(env, s, exprs, m) == model::lower(env, s1, exprs[n as int])
            } else {
                model::lower(env, s1, exprs[n as int]) is None ==> model::lower_block(
                    env,
                    s,
                    exprs,
                    m,
                ) is None
            },
        },
    decreases m,
{
    if m > n + 1 {
        law_blocks_are_converted_in_order(env, s, exprs, n, (m - 1) as nat);
    }
}

/// Only a mutable local that is bound, what is reached through a pointer, and the elements and fields
/// of these can be assigned to. An element is found by the value of its index, a field by its number,
/// from the outside in.
#[verifier::spinoff_prover]
pub proof fn law_places_are_reached_from_the_outside_in(env: LowerEnv, s: LowerState, lvalue: LValue)
    ensures
        match lvalue {
            LValue::Ident(ident) => match ident.definition {
                Definition::Local(local) if s.mutable_locals.contains(local.0)
                    && s.bindings.contains_key(local.0) => {
                    &&& model::lower_place(env, s, lvalue) matches Some((after, place))
                    &&& after == s
                    &&& place.root == s.bindings[local.0]
                    &&& place.typ == ident.typ
                    &&& place.path.len() == 0
                },
                _ => model::lower_place(env, s, lvalue) is None,
            },
            LValue::Index { array, index } => match model::lower_place(env, s, *array) {
                Some((s1, outer)) => match model::lower_value(env, s1, *index) {
                    Some((s2, at)) => {
                        &&& model::lower_place(env, s, lvalue) matches Some((after, place))
                        &&& after == s2
                        &&& place.root == outer.root
                        &&& place.typ == outer.typ
                        &&& place.path == outer.path.push(AccessStep::Index(at))
                    },
                    None => model::lower_place(env, s, lvalue) is None,
                },
                None => model::lower_place(env, s, lvalue) is None,
            },
            LValue::MemberAccess { object, field_index } => match model::lower_place(
                env,
                s,
                *object,
            ) {
                Some((s1, outer)) => {
                    &&& model::lower_place(env, s, lvalue) matches Some((after, place))
                    &&& after == s1
                    &&& place.root == outer.root
                    &&& place.typ == outer.typ
                    &&& place.path == outer.path.push(AccessStep::Field(field_index))
                },
                None => model::lower_place(env, s, lvalue) is None,
            },
            LValue::Dereference { reference, element_type } => match model::lower_lvalue_read(
                env,
                s,
                *reference,
            ) {
                Some((s1, pointer)) => {
                    &&& model::lower_place(env, s, lvalue) matches Some((after, place))
                    &&& after == s1
                    &&& place.root == pointer
                    &&& place.typ == element_type
                    &&& place.path.len() == 0
                },
                None => model::lower_place(env, s, lvalue) is None,
            },
            LValue::Clone(inner) => model::lower_place(env, s, lvalue) == model::lower_place(
                env,
                s,
                *inner,
            ),
        },
{
}

/// What is assigned is written through the pointer of the place: the value itself where the place is
/// all that the pointer points to, and else the whole with that part replaced. There is code exactly
/// where the value and the place have code and the types lead to the part.
#[verifier::spinoff_prover]
pub proof fn law_assignments_write_through_the_pointer(
    env: LowerEnv,
    s: LowerState,
    e: Expression,
    assign: Assign,
)
    requires
        s.code.has_block(s.current),
        e.kind == ExpressionKind::Assign(assign),
    ensures
        match model::lower_value(env, s, *assign.expression) {
            None => model::lower(env, s, e) is None,
            Some((s1, value)) => match model::lower_place(env, s1, assign.lvalue) {
                None => model::lower(env, s, e) is None,
                Some((s2, place)) => if place.path.len() == 0 {
                    model::lower(env, s, e) matches Some((after, None)) && does(
                        s2,
                        after,
                        Opcode::Store,
                        seq![place.root, value],
                    )
                } else {
                    let (s3, whole) = s2.value(Opcode::Load, seq![place.root], seq![]);
                    match model::lower_replace(s3, whole, place.typ, place.path, value) {
                        Some((s4, new_whole)) => model::lower(env, s, e) matches Some((after, None))
                            && does(s4, after, Opcode::Store, seq![place.root, new_whole]),
                        None => model::lower(env, s, e) is None,
                    }
                },
            },
        },
{
    assert(model::lower(env, s, e) == model::lower_assign(env, s, assign));
    lemma_there(env, s, *assign.expression);
    if let Some((s1, value)) = model::lower_value(env, s, *assign.expression) {
        stability::lemma_kept_refl(s1);
        frame::lemma_place_kept(s1, env, s1, assign.lvalue, 0);
        if let Some((s2, place)) = model::lower_place(env, s1, assign.lvalue) {
            frame::lemma_has_block(s1, s2);
            lemma_does(s2, Opcode::Store, seq![place.root, value]);
            lemma_gives(s2, Opcode::Load, seq![place.root], seq![]);
            let (s3, whole) = s2.value(Opcode::Load, seq![place.root], seq![]);
            stability::lemma_replace_adds(s3, whole, place.typ, place.path, value);
            if let Some((s4, new_whole)) = model::lower_replace(
                s3,
                whole,
                place.typ,
                place.path,
                value,
            ) {
                frame::lemma_has_block(s3, s4);
                lemma_does(s4, Opcode::Store, seq![place.root, new_whole]);
            }
        }
    }
}

/// A part can be replaced exactly where each step leads on: a step by an index through an array or a
/// vector, a step by a field through a tuple that has it.
pub proof fn law_steps_lead_through_types(
    s: LowerState,
    whole: ValueId,
    typ: ast::Type,
    path: Seq<AccessStep>,
    value: ValueId,
)
    ensures
        path.len() == 0 ==> model::lower_replace(s, whole, typ, path, value) == Some((s, value)),
        path.len() > 0 ==> {
            let inner = match (path[0], typ) {
                (AccessStep::Index(_), ast::Type::Array(_, element)) => Some(*element),
                (AccessStep::Index(_), ast::Type::Vector(element)) => Some(*element),
                (AccessStep::Field(field), ast::Type::Tuple(fields)) if field < fields@.len() => {
                    Some(fields@[field as int])
                },
                _ => None,
            };
            let (s1, part) = model::lower_part(s, whole, path[0]);
            match inner {
                None => model::lower_replace(s, whole, typ, path, value) is None,
                Some(of) => model::lower_replace(s, whole, typ, path, value) is Some
                    <==> model::lower_replace(s1, part, of, path.drop_first(), value) is Some,
            }
        },
{
}

/// Where there is no pointer to a field, there is no reference to it: to a field of a tuple that is
/// not itself behind a pointer. A reference to an immutable local is a fresh pointer to its value.
#[verifier::spinoff_prover]
pub proof fn law_references_to_fields_and_locals(
    env: LowerEnv,
    s: LowerState,
    e: Expression,
    unary: Unary,
)
    requires
        s.code.has_block(s.current),
        e.kind == ExpressionKind::Unary(unary),
        unary.operator is Reference,
        !unary.skip,
    ensures
        match unary.rhs.kind {
            ExpressionKind::ExtractTupleField(tuple, _) => if tuple.kind matches ExpressionKind::Unary(
                inner,
            ) && inner.operator is Dereference {
                match (model::lower_value(env, s, *unary.rhs), unary.rhs.return_type) {
                    (Some((s1, value)), Some(typ)) => model::lower(env, s, e) matches Some(
                        (after, Some(pointer)),
                    ) && points_to(s1, after, pointer, value, type_converter::ssa_type(typ)),
                    _ => model::lower(env, s, e) is None,
                }
            } else {
                model::lower(env, s, e) is None
            },
            ExpressionKind::Ident(ident) => match ident.definition {
                Definition::Local(local) if s.mutable_locals.contains(local.0) => {
                    !s.bindings.contains_key(local.0) ==> model::lower(env, s, e) is None
                },
                _ => match (model::lower_value(env, s, *unary.rhs), unary.rhs.return_type) {
                    (Some((s1, value)), Some(typ)) => model::lower(env, s, e) matches Some(
                        (after, Some(pointer)),
                    ) && points_to(s1, after, pointer, value, type_converter::ssa_type(typ)),
                    _ => model::lower(env, s, e) is None,
                },
            },
            _ => true,
        },
{
    lemma_there(env, s, *unary.rhs);
    assert(model::lower(env, s, e) == model::lower_unary(env, s, unary));
    if let Some((s1, value)) = model::lower_value(env, s, *unary.rhs) {
        if let Some(typ) = unary.rhs.return_type {
            lemma_points_to(s1, value, type_converter::ssa_type(typ));
        }
    }
}

/// The value that an assignment starts from: a variable is read as its name is, what is behind a
/// pointer is read through the pointer, and no other place is read in this way.
#[verifier::spinoff_prover]
pub proof fn law_pointers_are_followed(env: LowerEnv, s: LowerState, lvalue: LValue)
    requires
        s.code.has_block(s.current),
    ensures
        match lvalue {
            LValue::Ident(ident) => match model::lower_ident(env, s, ident) {
                Some((s1, Some(value))) => model::lower_lvalue_read(env, s, lvalue) == Some(
                    (s1, value),
                ),
                _ => model::lower_lvalue_read(env, s, lvalue) is None,
            },
            LValue::Dereference { reference, .. } => match model::lower_lvalue_read(
                env,
                s,
                *reference,
            ) {
                Some((s1, pointer)) => model::lower_lvalue_read(env, s, lvalue) matches Some(
                    (after, value),
                ) && gives(s1, after, value, Opcode::Load, seq![pointer], seq![]),
                None => model::lower_lvalue_read(env, s, lvalue) is None,
            },
            _ => model::lower_lvalue_read(env, s, lvalue) is None,
        },
{
    if let LValue::Dereference { reference, .. } = lvalue {
        stability::lemma_kept_refl(s);
        frame::lemma_lvalue_read_kept(s, env, s, *reference, 0);
        if let Some((s1, pointer)) = model::lower_lvalue_read(env, s, *reference) {
            frame::lemma_has_block(s, s1);
            lemma_gives(s1, Opcode::Load, seq![pointer], seq![]);
        }
    }
}

/// An `if` at which control parts has code exactly where its condition has a value, each of its
/// branches has code at its own block, and, unless the `if` gives the unit, both branches give a
/// value.
#[verifier::spinoff_prover]
pub proof fn law_an_if_needs_both_branches(
    env: LowerEnv,
    s: LowerState,
    e: Expression,
    if_expr: If,
)
    requires
        e.kind == ExpressionKind::If(if_expr),
        !meaning::is_known(*if_expr.condition),
    ensures
        match model::lower_value(env, s, *if_expr.condition) {
            None => model::lower(env, s, e) is None,
            Some((s1, condition)) => {
                let n = s1.code.blocks.len();
                let s2 = s1.add_block().add_block().add_block().branch(
                    s1.current,
                    condition,
                    BlockId(n as usize),
                    BlockId((n + 1) as usize),
                ).at(BlockId(n as usize));
                match model::lower(env, s2, *if_expr.consequence) {
                    None => model::lower(env, s, e) is None,
                    Some((s3, first)) => {
                        let s4 = s3.at(BlockId((n + 1) as usize));
                        let otherwise = match if_expr.alternative {
                            Some(alternative) => model::lower(env, s4, *alternative),
                            None => Some((s4, None)),
                        };
                        model::lower(env, s, e) is Some <==> (otherwise matches Some((_, second))
                            && (if_expr.typ is Unit || first is Some && second is Some))
                    },
                }
            },
        },
{
    let nothing = World { result: |op, operands, heap| None, effect: |op, operands, heap| None };
    let scope = meaning::Scope {
        locals: Map::empty(),
        mutable: Set::empty(),
        hidden: Set::empty(),
        heap: seq![],
    };
    laws::law_decided_conditions_have_that_truth_value(env, nothing, scope, *if_expr.condition);
    assert(model::lower(env, s, e) == model::lower_if(env, s, if_expr));
}

/// A question whose answer is known when the code is made parts no control: where the function is
/// unconstrained, only the code of the first branch is there, and else only that of the other. The
/// opposite of a question takes the branches the other way round.
#[verifier::spinoff_prover]
pub proof fn law_known_questions_choose_the_branch(
    env: LowerEnv,
    s: LowerState,
    e: Expression,
    if_expr: If,
)
    requires
        e.kind == ExpressionKind::If(if_expr),
    ensures
        ({
            let otherwise = match if_expr.alternative {
                Some(alternative) => model::lower(env, s, *alternative),
                None => Some((s, None)),
            };
            &&& (if_expr.condition.kind matches ExpressionKind::Call(call)
                && meaning::asks_unconstrained(call)) ==> model::lower(env, s, e) == (
            if env.in_unconstrained {
                model::lower(env, s, *if_expr.consequence)
            } else {
                otherwise
            })
            &&& (if_expr.condition.kind matches ExpressionKind::Unary(unary) && unary.operator is Not
                && !unary.skip && (unary.rhs.kind matches ExpressionKind::Call(call)
                && meaning::asks_unconstrained(call))) ==> model::lower(env, s, e) == (
            if env.in_unconstrained {
                otherwise
            } else {
                model::lower(env, s, *if_expr.consequence)
            })
        }),
{
    assert(model::lower(env, s, e) == model::lower_if(env, s, if_expr));
    reveal_with_fuel(model::const_bool, 3);
}

/// A loop has code exactly where its parts have code at the blocks where they stand.
#[verifier::spinoff_prover]
pub proof fn law_a_loop_needs_its_parts(env: LowerEnv, s: LowerState, e: Expression)
    requires
        e.kind is Loop || e.kind is While || e.kind is For,
    ensures
        match e.kind {
            ExpressionKind::Loop(body) => {
                let n = s.code.blocks.len();
                let context = LoopContext {
                    loop_header: BlockId(n as usize),
                    exit_block: BlockId((n + 1) as usize),
                    for_loop_index: None,
                };
                let s1 = s.add_block().add_block().jump(
                    s.current,
                    BlockId(n as usize),
                    seq![],
                ).at(BlockId(n as usize)).enter(context);
                model::lower(env, s, e) is Some <==> model::lower(env, s1, *body) is Some
            },
            ExpressionKind::While(while_expr) => {
                let n = s.code.blocks.len();
                let context = LoopContext {
                    loop_header: BlockId(n as usize),
                    exit_block: BlockId((n + 2) as usize),
                    for_loop_index: None,
                };
                let s1 = s.add_block().add_block().add_block().jump(
                    s.current,
                    BlockId(n as usize),
                    seq![],
                ).at(BlockId(n as usize));
                model::lower(env, s, e) is Some <==> (model::lower_value(
                    env,
                    s1,
                    *while_expr.condition,
                ) matches Some((s2, condition)) && model::lower(
                    env,
                    s2.branch(
                        BlockId(n as usize),
                        condition,
                        BlockId((n + 1) as usize),
                        BlockId((n + 2) as usize),
                    ).at(BlockId((n + 1) as usize)).enter(context),
                    *while_expr.body,
                ) is Some)
            },
            ExpressionKind::For(for_expr) => {
                let numbers = type_converter::ssa_type(for_expr.index_type).bit_size() is Some;
                match model::lower_value(env, s, *for_expr.start_range) {
                    None => model::lower(env, s, e) is None,
                    Some((s1, _)) => (model::lower_value(env, s1, *for_expr.end_range) is None
                        || !numbers) ==> model::lower(env, s, e) is None,
                }
            },
            _ => true,
        },
{
    match e.kind {
        ExpressionKind::Loop(body) => {
            assert(model::lower(env, s, e) == model::lower_loop(env, s, *body));
        },
        ExpressionKind::While(while_expr) => {
            assert(model::lower(env, s, e) == model::lower_while(env, s, while_expr));
        },
        ExpressionKind::For(for_expr) => {
            assert(model::lower(env, s, e) == model::lower_for(env, s, for_expr));
        },
        _ => {},
    }
}

/// A `for` loop whose bounds have values and whose index is a number has code exactly where its body
/// has code in the second of the three new blocks, where the index is bound, as any local is, to the
/// parameter of the header.
#[verifier::spinoff_prover]
pub proof fn law_the_index_is_bound_in_the_body(
    env: LowerEnv,
    s: LowerState,
    e: Expression,
    for_expr: For,
)
    requires
        s.code.has_block(s.current),
        e.kind == ExpressionKind::For(for_expr),
        model::lower_value(env, s, *for_expr.start_range) matches Some((s1, _))
            && model::lower_value(env, s1, *for_expr.end_range) is Some,
        type_converter::ssa_type(for_expr.index_type).bit_size() is Some,
    ensures
        ({
            let (s1, start) = model::lower_value(env, s, *for_expr.start_range)->0;
            let (s2, bound) = model::lower_value(env, s1, *for_expr.end_range)->0;
            let typ = type_converter::ssa_type(for_expr.index_type);
            let bits = typ.bit_size()->0;
            let (s3, end) = if for_expr.inclusive {
                s2.next_index(bound, bits)
            } else {
                (s2, bound)
            };
            let n = s2.code.blocks.len();
            let header = BlockId(n as usize);
            let s4 = s3.add_block().add_block().add_block();
            let index = s4.next();
            let (s6, below) = s4.parameter(header, typ).at(header).binary(BinaryOp::Lt, index, end);
            let s7 = s6.branch(
                header,
                below,
                BlockId((n + 1) as usize),
                BlockId((n + 2) as usize),
            ).jump(s2.current, header, seq![start]).at(BlockId((n + 1) as usize));
            let context = LoopContext {
                loop_header: header,
                exit_block: BlockId((n + 2) as usize),
                for_loop_index: Some((index, bits)),
            };
            let inside = LowerState {
                bindings: s7.bindings.insert(for_expr.index_variable.0, index),
                loops: s7.loops.push(context),
                ..s7
            };
            match model::lower(env, inside, *for_expr.block) {
                None => model::lower(env, s, e) is None,
                Some((s9, _)) => model::lower(env, s, e) matches Some((after, None))
                    && after.bindings == s9.bindings && after.mutable_locals == s9.mutable_locals,
            }
        }),
{
    assert(model::lower(env, s, e) == model::lower_for(env, s, for_expr));
    let (s1, start) = model::lower_value(env, s, *for_expr.start_range)->0;
    let (s2, bound) = model::lower_value(env, s1, *for_expr.end_range)->0;
    lemma_there(env, s, *for_expr.start_range);
    lemma_there(env, s1, *for_expr.end_range);
    let bits = type_converter::ssa_type(for_expr.index_type).bit_size()->0;
    let (s3, end) = if for_expr.inclusive {
        s2.next_index(bound, bits)
    } else {
        (s2, bound)
    };
    assert(model::lower_for(env, s, for_expr) == model::lower_for_rest(
        env,
        s3,
        for_expr,
        start,
        end,
        bits,
    ));
    assert(s3.code.blocks.len() == s2.code.blocks.len());
    assert(s3.current == s2.current);
}

/// A converter starts with nothing bound and no loop around it, at the block that it is given, and
/// knows the functions, the globals and the stand-ins that it is given.
pub proof fn law_a_converter_starts_with_nothing_bound<'a>(
    function_mapper: &'a HashMap<u32, FunctionId>,
    natively_unconstrained: &'a HashSet<u32>,
    in_unconstrained: bool,
    global_slots: &'a HashMap<u32, usize>,
    lowlevel_replacements: &'a TextMap<LowLevelReplacement>,
    entry_block: BlockId,
    converter: ExpressionConverter<'a>,
)
    requires
        call_ensures(
            ExpressionConverter::<'a>::new_with_globals,
            (
                function_mapper,
                natively_unconstrained,
                in_unconstrained,
                global_slots,
                lowlevel_replacements,
                entry_block,
            ),
            converter,
        ),
    ensures
        converter@.current == entry_block,
        converter@.loops.len() == 0,
        converter@.env.in_unconstrained == in_unconstrained,
        forall|local: u32|
            !(#[trigger] converter@.bindings.contains_key(local))
                && !converter@.mutable_locals.contains(local),
        forall|function: u32|
            (#[trigger] converter@.env.functions.contains_key(function))
                == function_mapper@.contains_key(function) && converter@.env.functions[function]
                == function_mapper@[function],
        forall|function: u32|
            (#[trigger] converter@.env.natively_unconstrained.contains(function))
                == natively_unconstrained@.contains(function),
        forall|global: u32|
            (#[trigger] converter@.env.global_slots.contains_key(global))
                == global_slots@.contains_key(global) && converter@.env.global_slots[global]
                == global_slots@[global],
        forall|name: Seq<char>|
            (#[trigger] converter@.env.replacements.contains_key(name))
                == lowlevel_replacements@.contains_key(name) && (
            lowlevel_replacements@.contains_key(name) ==> converter@.env.replacements[name]
                == lowlevel_replacements@[name]@),
{
}

} // verus!
