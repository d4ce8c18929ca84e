//! Code only grows: the code of an expression has all the values that were there before.

use vstd::prelude::*;
use crate::ast::{
    ArrayLiteral, Assign, Binary, Call, Cast, Definition, Expression, ExpressionKind, For, FuncId,
    If, Index, LValue, Let, Literal, Unary, While,
};
use crate::lowering::model;
use crate::lowering::model::{LoopContext, LowerEnv, LowerState};
use crate::lowering::stability;
use crate::lowering::type_converter;
use crate::ssa::hlssa::{BinaryOp, Endianness, Opcode, TypeView};

verus! {

/// At least as many values.
pub open spec fn grows(before: LowerState, after: LowerState) -> bool {
    before.code.values.len() <= after.code.values.len()
}

pub proof fn lemma_lower_grows(env: LowerEnv, s: LowerState, e: Expression)
    ensures
        model::lower(env, s, e) matches Some((after, _)) ==> grows(s, after),
    decreases e, 1nat,
{
    match e.kind {
        ExpressionKind::Binary(binary) => lemma_binary_grows(env, s, binary),
        ExpressionKind::Let(binding) => lemma_let_grows(env, s, binding),
        ExpressionKind::Block(exprs) => lemma_block_grows(env, s, exprs@, exprs@.len()),
        ExpressionKind::Constrain(inner) => lemma_constrain_grows(env, s, *inner),
        ExpressionKind::Semi(inner) => lemma_lower_grows(env, s, *inner),
        ExpressionKind::Literal(literal) => lemma_literal_grows(env, s, literal),
        ExpressionKind::Tuple(exprs) => lemma_tuple_grows(env, s, exprs),
        ExpressionKind::Call(call) => lemma_call_grows(env, s, call),
        ExpressionKind::Assign(assign) => lemma_assign_grows(env, s, assign),
        ExpressionKind::For(for_expr) => lemma_for_grows(env, s, for_expr),
        ExpressionKind::Index(index) => lemma_index_grows(env, s, index),
        ExpressionKind::ExtractTupleField(tuple, field) => lemma_extract_grows(
            env,
            s,
            *tuple,
            field,
        ),
        ExpressionKind::Cast(cast) => lemma_cast_grows(env, s, cast),
        ExpressionKind::If(if_expr) => lemma_if_grows(env, s, if_expr),
        ExpressionKind::Unary(unary) => lemma_unary_grows(env, s, unary),
        ExpressionKind::Clone(inner) => lemma_lower_grows(env, s, *inner),
        ExpressionKind::While(while_expr) => lemma_while_grows(env, s, while_expr),
        ExpressionKind::Loop(body) => lemma_loop_grows(env, s, *body),
        _ => {},
    }
}

pub proof fn lemma_value_grows(env: LowerEnv, s: LowerState, e: Expression)
    ensures
        model::lower_value(env, s, e) matches Some((after, _)) ==> grows(s, after),
    decreases e, 2nat,
{
    lemma_lower_grows(env, s, e);
}

pub proof fn lemma_values_grow(env: LowerEnv, s: LowerState, exprs: Seq<Expression>, n: nat)
    ensures
        model::lower_values(env, s, exprs, n) matches Some((after, _)) ==> grows(s, after),
    decreases exprs, n,
{
    if 0 < n <= exprs.len() {
        lemma_values_grow(env, s, exprs, (n - 1) as nat);
        if let Some((s1, _)) = model::lower_values(env, s, exprs, (n - 1) as nat) {
            lemma_value_grows(env, s1, exprs[n - 1]);
        }
    }
}

proof fn lemma_binary_grows(env: LowerEnv, s: LowerState, binary: Binary)
    ensures
        model::lower_binary(env, s, binary) matches Some((after, _)) ==> grows(s, after),
    decreases binary, 0nat,
{
    lemma_value_grows(env, s, *binary.lhs);
    if let Some((s1, _)) = model::lower_value(env, s, *binary.lhs) {
        lemma_value_grows(env, s1, *binary.rhs);
    }
}

proof fn lemma_let_grows(env: LowerEnv, s: LowerState, binding: Let)
    ensures
        model::lower_let(env, s, binding) matches Some((after, _)) ==> grows(s, after),
    decreases binding, 0nat,
{
    lemma_lower_grows(env, s, *binding.expression);
}

proof fn lemma_constrain_grows(env: LowerEnv, s: LowerState, inner: Expression)
    ensures
        model::lower_constrain(env, s, inner) matches Some((after, _)) ==> grows(s, after),
    decreases inner, 3nat,
{
    lemma_value_grows(env, s, inner);
}

proof fn lemma_tuple_grows(env: LowerEnv, s: LowerState, exprs: Vec<Expression>)
    ensures
        model::lower_tuple(env, s, exprs) matches Some((after, _)) ==> grows(s, after),
    decreases exprs, 0nat,
{
    lemma_values_grow(env, s, exprs@, exprs@.len());
}

proof fn lemma_index_grows(env: LowerEnv, s: LowerState, index: Index)
    ensures
        model::lower_index(env, s, index) matches Some((after, _)) ==> grows(s, after),
    decreases index, 0nat,
{
    lemma_value_grows(env, s, *index.collection);
    if let Some((s1, collection)) = model::lower_value(env, s, *index.collection) {
        let (s2, _) = s1.load_reference(collection, index.collection.return_type);
        lemma_value_grows(env, s2, *index.index);
    }
}

proof fn lemma_extract_grows(env: LowerEnv, s: LowerState, tuple: Expression, field: usize)
    ensures
        model::lower_extract(env, s, tuple, field) matches Some((after, _)) ==> grows(s, after),
    decreases tuple, 3nat,
{
    lemma_value_grows(env, s, tuple);
}

proof fn lemma_cast_grows(env: LowerEnv, s: LowerState, cast: Cast)
    ensures
        model::lower_cast(env, s, cast) matches Some((after, _)) ==> grows(s, after),
    decreases cast, 0nat,
{
    lemma_value_grows(env, s, *cast.lhs);
}

proof fn lemma_unary_grows(env: LowerEnv, s: LowerState, unary: Unary)
    ensures
        model::lower_unary(env, s, unary) matches Some((after, _)) ==> grows(s, after),
    decreases unary, 0nat,
{
    lemma_lower_grows(env, s, *unary.rhs);
    lemma_value_grows(env, s, *unary.rhs);
}

proof fn lemma_array_grows(env: LowerEnv, s: LowerState, array: ArrayLiteral)
    ensures
        model::lower_array(env, s, array) matches Some((after, _)) ==> grows(s, after),
    decreases array, 0nat,
{
    lemma_values_grow(env, s, array.contents@, array.contents@.len());
}

pub proof fn lemma_block_grows(env: LowerEnv, s: LowerState, exprs: Seq<Expression>, n: nat)
    ensures
        model::lower_block(env, s, exprs, n) matches Some((after, _)) ==> grows(s, after),
    decreases exprs, n,
{
    if 0 < n <= exprs.len() {
        lemma_block_grows(env, s, exprs, (n - 1) as nat);
        if let Some((s1, _)) = model::lower_block(env, s, exprs, (n - 1) as nat) {
            lemma_lower_grows(env, s1, exprs[n - 1]);
        }
    }
}

proof fn lemma_literal_grows(env: LowerEnv, s: LowerState, literal: Literal)
    ensures
        model::lower_literal(env, s, literal) matches Some((after, _)) ==> grows(s, after),
    decreases literal, 0nat,
{
    match literal {
        Literal::Array(array) => lemma_array_grows(env, s, array),
        Literal::Vector(array) => lemma_array_grows(env, s, array),
        Literal::Repeated { element, .. } => lemma_value_grows(env, s, *element),
        Literal::Str(text) => {
            stability::lemma_constants_add(s, model::utf8_bytes(text@));
        },
        Literal::FmtStr(fragments, captures) => {
            let points = model::code_points(model::format_text(fragments@));
            stability::lemma_constants_add(s, points);
            let (s1, _) = model::lower_constant_array(s, points, TypeView::U(32));
            if let ExpressionKind::Tuple(exprs) = captures.kind {
                lemma_values_grow(env, s1, exprs@, exprs@.len());
            }
        },
        _ => {},
    }
}

proof fn lemma_static_call_grows(env: LowerEnv, s: LowerState, function: FuncId, call: Call)
    ensures
        model::lower_static_call(env, s, function, call) matches Some((after, _)) ==> grows(
            s,
            after,
        ),
    decreases call, 0nat,
{
    lemma_values_grow(env, s, call.arguments@, call.arguments@.len());
}

proof fn lemma_first_grows(env: LowerEnv, s: LowerState, call: Call)
    ensures
        model::lower_first(env, s, call) matches Some((after, _)) ==> grows(s, after),
    decreases call, 0nat,
{
    if call.arguments@.len() > 0 {
        lemma_value_grows(env, s, call.arguments@[0]);
    }
}

proof fn lemma_first_two_grow(env: LowerEnv, s: LowerState, call: Call)
    ensures
        model::lower_first_two(env, s, call) matches Some((after, _, _)) ==> grows(s, after),
    decreases call, 0nat,
{
    if call.arguments@.len() > 1 {
        lemma_value_grows(env, s, call.arguments@[0]);
        if let Some((s1, _)) = model::lower_value(env, s, call.arguments@[0]) {
            lemma_value_grows(env, s1, call.arguments@[1]);
        }
    }
}

proof fn lemma_radix_grows(env: LowerEnv, s: LowerState, call: Call, endianness: Endianness)
    ensures
        model::lower_to_radix(env, s, call, endianness) matches Some((after, _)) ==> grows(
            s,
            after,
        ),
        model::lower_to_bits(env, s, call, endianness) matches Some((after, _)) ==> grows(s, after),
    decreases call, 1nat,
{
    lemma_first_grows(env, s, call);
    lemma_first_two_grow(env, s, call);
}

proof fn lemma_array_len_grows(env: LowerEnv, s: LowerState, call: Call)
    ensures
        model::lower_array_len(env, s, call) matches Some((after, _)) ==> grows(s, after),
    decreases call, 1nat,
{
    lemma_first_grows(env, s, call);
    if call.arguments@.len() > 0 {
        lemma_lower_grows(env, s, call.arguments@[0]);
    }
}

proof fn lemma_replacement_call_grows(
    env: LowerEnv,
    s: LowerState,
    name: Seq<char>,
    call: Call,
)
    ensures
        model::lower_replacement_call(env, s, name, call) matches Some((after, _)) ==> grows(
            s,
            after,
        ),
    decreases call, 1nat,
{
    if let Some(function) = model::replacement_for(env, name, call.return_type) {
        lemma_static_call_grows(env, s, function, call);
    }
}

proof fn lemma_simple_builtins_grow(env: LowerEnv, s: LowerState, call: Call)
    ensures
        model::lower_assert_eq(env, s, call) matches Some((after, _)) ==> grows(s, after),
        model::lower_static_assert(env, s, call) matches Some((after, _)) ==> grows(s, after),
        model::lower_range_constraint(env, s, call) matches Some((after, _)) ==> grows(s, after),
        model::lower_as_witness(env, s, call) matches Some((after, _)) ==> grows(s, after),
        model::lower_as_vector(env, s, call) matches Some((after, _)) ==> grows(s, after),
    decreases call, 1nat,
{
    lemma_first_grows(env, s, call);
    lemma_first_two_grow(env, s, call);
    if call.arguments@.len() > 0 {
        lemma_lower_grows(env, s, call.arguments@[0]);
    }
}

proof fn lemma_builtin_call_grows(env: LowerEnv, s: LowerState, name: Seq<char>, call: Call)
    ensures
        model::lower_builtin_call(env, s, name, call) matches Some((after, _)) ==> grows(s, after),
    decreases call, 2nat,
{
    lemma_simple_builtins_grow(env, s, call);
    lemma_array_len_grows(env, s, call);
    lemma_radix_grows(env, s, call, Endianness::Little);
    lemma_radix_grows(env, s, call, Endianness::Big);
    lemma_replacement_call_grows(env, s, name, call);
}

proof fn lemma_lowlevel_call_grows(env: LowerEnv, s: LowerState, name: Seq<char>, call: Call)
    ensures
        model::lower_lowlevel_call(env, s, name, call) matches Some((after, _)) ==> grows(s, after),
    decreases call, 2nat,
{
    lemma_intrinsic_grows(env, s, name, call);
    lemma_replacement_call_grows(env, s, name, call);
}

proof fn lemma_intrinsic_grows(env: LowerEnv, s: LowerState, name: Seq<char>, call: Call)
    ensures
        model::lower_intrinsic(env, s, name, call) matches Some((after, _)) ==> grows(s, after),
    decreases call, 1nat,
{
    lemma_first_grows(env, s, call);
}

proof fn lemma_call_grows(env: LowerEnv, s: LowerState, call: Call)
    ensures
        model::lower_call(env, s, call) matches Some((after, _)) ==> grows(s, after),
    decreases call, 3nat,
{
    match call.func.kind {
        ExpressionKind::Ident(ident) => match ident.definition {
            Definition::Function(function) => lemma_static_call_grows(env, s, function, call),
            Definition::Builtin(name) => lemma_builtin_call_grows(env, s, name@, call),
            Definition::LowLevel(name) => lemma_lowlevel_call_grows(env, s, name@, call),
            _ => {},
        },
        _ => {
            lemma_values_grow(env, s, call.arguments@, call.arguments@.len());
            if let Some((s1, _)) = model::lower_values(
                env,
                s,
                call.arguments@,
                call.arguments@.len(),
            ) {
                lemma_value_grows(env, s1, *call.func);
            }
        },
    }
}

pub proof fn lemma_place_grows(env: LowerEnv, s: LowerState, lvalue: LValue)
    ensures
        model::lower_place(env, s, lvalue) matches Some((after, _)) ==> grows(s, after),
    decreases lvalue, 0nat,
{
    match lvalue {
        LValue::Ident(_) => {},
        LValue::Index { array, index } => {
            lemma_place_grows(env, s, *array);
            if let Some((s1, _)) = model::lower_place(env, s, *array) {
                lemma_value_grows(env, s1, *index);
            }
        },
        LValue::MemberAccess { object, .. } => {
            lemma_place_grows(env, s, *object);
        },
        LValue::Dereference { reference, .. } => {
            lemma_lvalue_read_grows(env, s, *reference);
        },
        LValue::Clone(inner) => {
            lemma_place_grows(env, s, *inner);
        },
    }
}

pub proof fn lemma_lvalue_read_grows(env: LowerEnv, s: LowerState, lvalue: LValue)
    ensures
        model::lower_lvalue_read(env, s, lvalue) matches Some((after, _)) ==> grows(s, after),
    decreases lvalue,
{
    if let LValue::Dereference { reference, .. } = lvalue {
        lemma_lvalue_read_grows(env, s, *reference);
    }
}

proof fn lemma_assign_grows(env: LowerEnv, s: LowerState, assign: Assign)
    ensures
        model::lower_assign(env, s, assign) matches Some((after, _)) ==> grows(s, after),
    decreases assign, 0nat,
{
    lemma_value_grows(env, s, *assign.expression);
    if let Some((s1, new_value)) = model::lower_value(env, s, *assign.expression) {
        lemma_place_grows(env, s1, assign.lvalue);
        if let Some((s2, place)) = model::lower_place(env, s1, assign.lvalue) {
            let (s3, whole) = s2.value(Opcode::Load, seq![place.root], seq![]);
            stability::lemma_replace_adds(s3, whole, place.typ, place.path, new_value);
        }
    }
}

proof fn lemma_for_grows(env: LowerEnv, s: LowerState, for_expr: For)
    ensures
        model::lower_for(env, s, for_expr) matches Some((after, _)) ==> grows(s, after),
    decreases for_expr, 0nat,
{
    lemma_value_grows(env, s, *for_expr.start_range);
    if let Some((s1, start)) = model::lower_value(env, s, *for_expr.start_range) {
        lemma_value_grows(env, s1, *for_expr.end_range);
        if let Some((s2, end_raw)) = model::lower_value(env, s1, *for_expr.end_range) {
            if let Some(bits) = type_converter::ssa_type(for_expr.index_type).bit_size() {
                let (s3, end) = if for_expr.inclusive {
                    s2.next_index(end_raw, bits)
                } else {
                    (s2, end_raw)
                };
                let header = s3.code.next_block();
                let body = s3.add_block().code.next_block();
                let exit = s3.add_block().add_block().code.next_block();
                let s4 = s3.add_block().add_block().add_block();
                let index = s4.next();
                let s5 = s4.parameter(header, type_converter::ssa_type(for_expr.index_type)).at(
                    header,
                );
                let (s6, cond) = s5.binary(BinaryOp::Lt, index, end);
                let s7 = s6.branch(header, cond, body, exit).jump(s3.current, header, seq![start]);
                let context = LoopContext {
                    loop_header: header,
                    exit_block: exit,
                    for_loop_index: Some((index, bits)),
                };
                let s8 = s7.at(body).bind(for_expr.index_variable, index).enter(context);
                lemma_lower_grows(env, s8, *for_expr.block);
            }
        }
    }
}

proof fn lemma_while_grows(env: LowerEnv, s: LowerState, while_expr: While)
    ensures
        model::lower_while(env, s, while_expr) matches Some((after, _)) ==> grows(s, after),
    decreases while_expr, 0nat,
{
    let header = s.code.next_block();
    let body = s.add_block().code.next_block();
    let exit = s.add_block().add_block().code.next_block();
    let s1 = s.add_block().add_block().add_block().jump(s.current, header, seq![]).at(header);
    lemma_value_grows(env, s1, *while_expr.condition);
    if let Some((s2, cond)) = model::lower_value(env, s1, *while_expr.condition) {
        let context = LoopContext { loop_header: header, exit_block: exit, for_loop_index: None };
        let s3 = s2.branch(header, cond, body, exit).at(body).enter(context);
        lemma_lower_grows(env, s3, *while_expr.body);
    }
}

proof fn lemma_loop_grows(env: LowerEnv, s: LowerState, body: Expression)
    ensures
        model::lower_loop(env, s, body) matches Some((after, _)) ==> grows(s, after),
    decreases body, 3nat,
{
    let header = s.code.next_block();
    let exit = s.add_block().code.next_block();
    let context = LoopContext { loop_header: header, exit_block: exit, for_loop_index: None };
    let s1 = s.add_block().add_block().jump(s.current, header, seq![]).at(header).enter(context);
    lemma_lower_grows(env, s1, body);
}

proof fn lemma_if_grows(env: LowerEnv, s: LowerState, if_expr: If)
    ensures
        model::lower_if(env, s, if_expr) matches Some((after, _)) ==> grows(s, after),
    decreases if_expr, 0nat,
{
    lemma_lower_grows(env, s, *if_expr.consequence);
    if let Some(alternative) = if_expr.alternative {
        lemma_lower_grows(env, s, *alternative);
    }
    lemma_value_grows(env, s, *if_expr.condition);
    if let Some((s1, cond)) = model::lower_value(env, s, *if_expr.condition) {
        let then_block = s1.code.next_block();
        let else_block = s1.add_block().code.next_block();
        let s2 = s1.add_block().add_block().add_block().branch(
            s1.current,
            cond,
            then_block,
            else_block,
        ).at(then_block);
        lemma_lower_grows(env, s2, *if_expr.consequence);
        if let Some((s3, _)) = model::lower(env, s2, *if_expr.consequence) {
            if let Some(alternative) = if_expr.alternative {
                lemma_lower_grows(env, s3.at(else_block), *alternative);
            }
        }
    }
}

} // verus!
