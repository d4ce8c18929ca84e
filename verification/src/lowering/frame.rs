//! What a conversion leaves alone.
//!
//! The code of an expression adds to the current block, and may end it and go on to new ones.
//! Every other block stays as it is, and so does every local that the expression does not bind.

use vstd::prelude::*;
use crate::ast::{
    ArrayLiteral, Assign, Binary, Call, Cast, Definition, Expression, ExpressionKind, For, FuncId,
    If, Index, LValue, Let, Literal, LocalId, Unary, While,
};
use crate::lowering::meaning;
use crate::lowering::model;
use crate::lowering::model::{LoopContext, LowerEnv, LowerState};
use crate::lowering::stability;
use crate::lowering::type_converter;
use crate::ssa::hlssa::{BinaryOp, BlockId, Endianness, Opcode, TypeView, ValueId};

verus! {

broadcast use {
    stability::lemma_kept_refl,
    stability::lemma_kept_emit,
    stability::lemma_kept_constant,
    stability::lemma_kept_bind,
    stability::lemma_kept_bind_mut,
};

/// If none of several expressions binds a local, each of them does not.
proof fn lemma_any_binds(exprs: Seq<Expression>, n: nat, i: int, l: u32)
    requires
        0 <= i < n <= exprs.len(),
        meaning::binds(exprs[i], l),
    ensures
        meaning::any_binds(exprs, n, l),
    decreases n,
{
    if i < n - 1 {
        lemma_any_binds(exprs, (n - 1) as nat, i, l);
    }
}

/// The body of a `for` loop, as it is entered.
proof fn lemma_for_inside(
    s: LowerState,
    inside: LowerState,
    local: LocalId,
    typ: TypeView,
    start: ValueId,
    end: ValueId,
    context: LoopContext,
)
    requires
        s.code.has_block(s.current),
        ({
            let header = s.code.next_block();
            let body = s.add_block().code.next_block();
            let exit = s.add_block().add_block().code.next_block();
            let s4 = s.add_block().add_block().add_block();
            let index = s4.next();
            let (s6, cond) = s4.parameter(header, typ).at(header).binary(BinaryOp::Lt, index, end);
            let s7 = s6.branch(header, cond, body, exit).jump(s.current, header, seq![start]);
            inside == s7.at(body).bind(local, index).enter(context)
        }),
    ensures
        ({
            let body = s.add_block().code.next_block();
            let exit = s.add_block().add_block().code.next_block();
            &&& inside.current == body
            &&& s.code.values.is_prefix_of(inside.code.values)
            &&& s.code.blocks.len() + 3 == inside.code.blocks.len()
            &&& inside.code.has_block(body)
            &&& inside.code.has_block(exit)
            &&& inside.code.blocks.len() <= usize::MAX ==> {
                &&& exit.0 == inside.code.blocks.len() - 1
                &&& body.0 == s.code.blocks.len() + 1
                &&& inside.code.is_open(body)
                &&& inside.code.is_open(exit)
                &&& forall|b: int|
                    0 <= b < s.code.blocks.len() && b != s.current.0 ==> (
                    #[trigger] inside.code.blocks[b]) == s.code.blocks[b]
                &&& inside.code.blocks[s.current.0 as int].parameters
                    == s.code.blocks[s.current.0 as int].parameters
                &&& inside.code.blocks[s.current.0 as int].instructions
                    == s.code.blocks[s.current.0 as int].instructions
            }
            &&& inside.loops == s.loops.push(context)
            &&& inside.bindings == s.bindings.insert(local.0, s.add_block().add_block().add_block().next())
            &&& inside.mutable_locals == s.mutable_locals
        }),
{
}

/// The current block is there still.
pub proof fn lemma_has_block(s: LowerState, after: LowerState)
    requires
        stability::kept(s, after),
        s.code.has_block(s.current),
    ensures
        after.code.has_block(after.current),
        s.code.blocks.len() <= after.code.blocks.len(),
        s.code.values.len() <= after.code.values.len(),
        after.loops == s.loops,
{
    reveal(stability::kept);
}

/// A block left by `break`.
proof fn lemma_break_kept(o: LowerState, s: LowerState, exit: BlockId)
    requires
        stability::kept(o, s),
        o.code.has_block(o.current),
    ensures
        stability::kept(o, s.jump(s.current, exit, seq![]).into_dead_block()),
{
    reveal(stability::kept);
    let after = s.jump(s.current, exit, seq![]).into_dead_block();
    assert(stability::kept(s, after));
    stability::lemma_kept_trans(o, s, after);
}

/// A block left by `continue`.
proof fn lemma_continue_kept(o: LowerState, s: LowerState, context: LoopContext)
    requires
        stability::kept(o, s),
        o.code.has_block(o.current),
    ensures
        ({
            let after = s.next_round(context).into_dead_block();
            &&& stability::kept(o, after)
            &&& after.bindings == s.bindings
            &&& after.mutable_locals == s.mutable_locals
        }),
{
    match context.for_loop_index {
        Some((index, bits)) => {
            let (s1, next) = s.next_index(index, bits);
            reveal(stability::kept);
            let after = s1.jump(s1.current, context.loop_header, seq![next]).into_dead_block();
            assert(stability::kept(s1, after));
            stability::lemma_kept_trans(o, s1, after);
        },
        None => lemma_break_kept(o, s, context.loop_header),
    }
}

/// The end of a round binds nothing.
proof fn lemma_close_round_binds(s: LowerState, context: LoopContext, exit: BlockId)
    requires
        s.code.has_block(s.current),
    ensures
        ({
            let after = s.close_round(context).at(exit);
            &&& after.bindings == s.bindings
            &&& after.mutable_locals == s.mutable_locals
            &&& after.loops == s.loops
            &&& s.code.values.is_prefix_of(after.code.values)
            &&& s.code.blocks.len() == after.code.blocks.len()
            &&& forall|b: int|
                0 <= b < s.code.blocks.len() && b != s.current.0 ==> (
                #[trigger] after.code.blocks[b]) == s.code.blocks[b]
        }),
{
}

/// A loop whose body has been converted.
proof fn lemma_loop_around(
    s: LowerState,
    inside: LowerState,
    done: LowerState,
    last: LowerState,
    context: LoopContext,
    body: BlockId,
    exit: BlockId,
)
    requires
        s.code.has_block(s.current),
        s.code.values.is_prefix_of(inside.code.values),
        s.code.blocks.len() + 2 <= inside.code.blocks.len(),
        inside.code.has_block(inside.current),
        stability::kept(inside, done),
        inside.current == body,
        inside.loops.drop_last() == s.loops,
        last == done.leave().close_round(context).at(exit),
        inside.code.has_block(exit),
        inside.code.blocks.len() <= usize::MAX ==> exit.0 == inside.code.blocks.len() - 1 && body.0
            >= s.code.blocks.len() && body.0 < exit.0,
        stability::settled(s) && inside.code.blocks.len() <= usize::MAX ==> {
            &&& stability::settled(inside)
            &&& inside.code.is_open(exit)
            &&& forall|b: int|
                0 <= b < s.code.blocks.len() && b != s.current.0 ==> (
                #[trigger] inside.code.blocks[b]) == s.code.blocks[b]
            &&& inside.code.blocks[s.current.0 as int].parameters
                == s.code.blocks[s.current.0 as int].parameters
            &&& s.code.blocks[s.current.0 as int].instructions.is_prefix_of(
                inside.code.blocks[s.current.0 as int].instructions,
            )
        },
    ensures
        stability::kept(s, last),
{
    reveal(stability::kept);
    lemma_close_round_binds(done.leave(), context, exit);
    assert(done.leave().loops =~= s.loops);
    assert forall|i: int| 0 <= i < s.code.values.len() implies last.code.values[i]
        == s.code.values[i] by {
        assert(inside.code.values[i] == s.code.values[i]);
        assert(done.code.values[i] == inside.code.values[i]);
    }
    if stability::settled(s) && last.code.blocks.len() <= usize::MAX {
        assert forall|b: int| 0 <= b < inside.code.blocks.len() && b != body.0 implies (
        #[trigger] last.code.blocks[b]) == inside.code.blocks[b] by {
            assert(done.code.blocks[b] == inside.code.blocks[b]);
        }
        assert(last.code.blocks[exit.0 as int] == inside.code.blocks[exit.0 as int]);
    }
}

/// A `while` loop whose body has been converted.
proof fn lemma_while_around(
    s: LowerState,
    s1: LowerState,
    s2: LowerState,
    cond: ValueId,
    s3: LowerState,
    s4: LowerState,
    last: LowerState,
    context: LoopContext,
)
    requires
        s.code.has_block(s.current),
        context.loop_header == s.code.next_block(),
        context.exit_block == s.add_block().add_block().code.next_block(),
        s1 == s.add_block().add_block().add_block().jump(
            s.current,
            context.loop_header,
            seq![],
        ).at(context.loop_header),
        stability::kept(s1, s2),
        s3 == s2.branch(
            context.loop_header,
            cond,
            s.add_block().code.next_block(),
            context.exit_block,
        ).at(s.add_block().code.next_block()).enter(context),
        stability::kept(s3, s4),
        s3.loops.drop_last() == s.loops,
        last == s4.leave().close_round(context).at(context.exit_block),
    ensures
        stability::kept(s, last),
{
    reveal(stability::kept);
    let exit = context.exit_block;
    assert(s1.code.has_block(s1.current));
    assert(s3.code.has_block(s3.current));
    lemma_close_round_binds(s4.leave(), context, exit);
    assert(s4.leave().loops =~= s.loops);
    assert forall|i: int| 0 <= i < s.code.values.len() implies last.code.values[i]
        == s.code.values[i] by {
        assert(s2.code.values[i] == s1.code.values[i]);
        assert(s4.code.values[i] == s3.code.values[i]);
    }
    if stability::settled(s) && last.code.blocks.len() <= usize::MAX {
        let body = s.add_block().code.next_block();
        assert(stability::settled(s1));
        assert(s2.code.blocks[body.0 as int] == s1.code.blocks[body.0 as int]);
        assert(s2.code.blocks[exit.0 as int] == s1.code.blocks[exit.0 as int]);
        assert(stability::settled(s3));
        assert forall|b: int| 0 <= b < s.code.blocks.len() || b == exit.0 implies (
        #[trigger] last.code.blocks[b]) == s1.code.blocks[b] by {
            assert(s2.code.blocks[b] == s1.code.blocks[b]);
            assert(s3.code.blocks[b] == s2.code.blocks[b]);
            assert(s4.code.blocks[b] == s3.code.blocks[b]);
        }
    }
}

/// An `if` whose branches have been converted.
proof fn lemma_if_around(
    s1: LowerState,
    s2: LowerState,
    s3: LowerState,
    s4: LowerState,
    s5: LowerState,
    last: LowerState,
    cond: ValueId,
)
    requires
        s1.code.has_block(s1.current),
        s2 == s1.add_block().add_block().add_block().branch(
            s1.current,
            cond,
            s1.code.next_block(),
            s1.add_block().code.next_block(),
        ).at(s1.code.next_block()),
        stability::kept(s2, s3),
        s4 == s3.at(s1.add_block().code.next_block()),
        stability::kept(s4, s5),
        ({
            let merge = s1.add_block().add_block().code.next_block();
            ||| last == s5.jump(s3.current, merge, seq![]).jump(s5.current, merge, seq![]).at(merge)
            ||| exists|typ: TypeView, a: ValueId, b: ValueId|
                last == #[trigger] s5.parameter(merge, typ).jump(s3.current, merge, seq![a]).jump(
                    s5.current,
                    merge,
                    seq![b],
                ).at(merge)
        }),
    ensures
        stability::kept(s1, last),
{
    reveal(stability::kept);
    let merge = s1.add_block().add_block().code.next_block();
    assert(s2.code.has_block(s2.current));
    assert(s4.code.has_block(s4.current));
    assert forall|i: int| 0 <= i < s1.code.values.len() implies last.code.values[i]
        == s1.code.values[i] by {
        assert(s3.code.values[i] == s2.code.values[i]);
        assert(s5.code.values[i] == s4.code.values[i]);
    }
    if stability::settled(s1) && last.code.blocks.len() <= usize::MAX {
        assert(stability::settled(s2));
        let otherwise = s1.add_block().code.next_block();
        assert(s3.code.blocks[otherwise.0 as int] == s2.code.blocks[otherwise.0 as int]);
        assert(stability::settled(s4));
        assert(s3.code.blocks[merge.0 as int] == s2.code.blocks[merge.0 as int]);
        assert(s5.code.blocks[merge.0 as int] == s4.code.blocks[merge.0 as int]);
        assert forall|b: int| 0 <= b < s1.code.blocks.len() implies (#[trigger] last.code.blocks[b])
            == s2.code.blocks[b] by {
            assert(s3.code.blocks[b] == s2.code.blocks[b]);
            assert(s5.code.blocks[b] == s4.code.blocks[b]);
        }
    }
}

#[verifier::spinoff_prover]
pub proof fn lemma_lower_kept(o: LowerState, env: LowerEnv, s: LowerState, e: Expression, l: u32)
    requires
        stability::kept(o, s),
        o.code.has_block(o.current),
    ensures
        model::lower(env, s, e) matches Some((after, _)) ==> stability::kept(o, after) && (
            meaning::binds(e, l) || stability::same_local(s, after, l)),
    decreases e, 1nat,
{
    match e.kind {
        ExpressionKind::Binary(binary) => lemma_binary_kept(o, env, s, binary, l),
        ExpressionKind::Let(binding) => lemma_let_kept(o, env, s, binding, l),
        ExpressionKind::Block(exprs) => lemma_block_kept(o, env, s, exprs@, exprs@.len(), l),
        ExpressionKind::Constrain(inner) => lemma_constrain_kept(o, env, s, *inner, l),
        ExpressionKind::Semi(inner) => lemma_lower_kept(o, env, s, *inner, l),
        ExpressionKind::Literal(literal) => lemma_literal_kept(o, env, s, literal, l),
        ExpressionKind::Tuple(exprs) => lemma_tuple_kept(o, env, s, exprs, l),
        ExpressionKind::Call(call) => lemma_call_kept(o, env, s, call, l),
        ExpressionKind::Assign(assign) => lemma_assign_kept(o, env, s, assign, l),
        ExpressionKind::For(for_expr) => lemma_for_kept(o, env, s, for_expr, l),
        ExpressionKind::Index(index) => lemma_index_kept(o, env, s, index, l),
        ExpressionKind::ExtractTupleField(tuple, field) => lemma_extract_kept(
            o,
            env,
            s,
            *tuple,
            field, l,
        ),
        ExpressionKind::Cast(cast) => lemma_cast_kept(o, env, s, cast, l),
        ExpressionKind::If(if_expr) => lemma_if_kept(o, env, s, if_expr, l),
        ExpressionKind::Unary(unary) => lemma_unary_kept(o, env, s, unary, l),
        ExpressionKind::Clone(inner) => lemma_lower_kept(o, env, s, *inner, l),
        ExpressionKind::Break => {
            if s.loops.len() > 0 {
                lemma_break_kept(o, s, s.loops.last().exit_block);
            }
        },
        ExpressionKind::Continue => {
            if s.loops.len() > 0 {
                lemma_continue_kept(o, s, s.loops.last());
            }
        },
        ExpressionKind::While(while_expr) => lemma_while_kept(o, env, s, while_expr, l),
        ExpressionKind::Loop(body) => lemma_loop_kept(o, env, s, *body, l),
        _ => {},
    }
}

pub proof fn lemma_value_kept(o: LowerState, env: LowerEnv, s: LowerState, e: Expression, l: u32)
    requires
        stability::kept(o, s),
        o.code.has_block(o.current),
    ensures
        model::lower_value(env, s, e) matches Some((after, _)) ==> stability::kept(o, after) && (
            meaning::binds(e, l) || stability::same_local(s, after, l)),
    decreases e, 2nat,
{
    lemma_lower_kept(o, env, s, e, l);
}

pub proof fn lemma_values_kept(
    o: LowerState,
    env: LowerEnv,
    s: LowerState,
    exprs: Seq<Expression>,
    n: nat,
    l: u32,
)
    requires
        stability::kept(o, s),
        o.code.has_block(o.current),
    ensures
        model::lower_values(env, s, exprs, n) matches Some((after, _)) ==> stability::kept(o, after) && (
            meaning::any_binds(exprs, n, l) || stability::same_local(s, after, l)),
    decreases exprs, n,
{
    if 0 < n <= exprs.len() {
        lemma_values_kept(o, env, s, exprs, (n - 1) as nat, l);
        if let Some((s1, _)) = model::lower_values(env, s, exprs, (n - 1) as nat) {
            lemma_value_kept(o, env, s1, exprs[n - 1], l);
        }
    }
}

proof fn lemma_binary_kept(o: LowerState, env: LowerEnv, s: LowerState, binary: Binary, l: u32)
    requires
        stability::kept(o, s),
        o.code.has_block(o.current),
    ensures
        model::lower_binary(env, s, binary) matches Some((after, _)) ==> stability::kept(o, after) && (
            meaning::binds(*binary.lhs, l) || meaning::binds(*binary.rhs, l) || stability::same_local(s, after, l)),
    decreases binary, 0nat,
{
    lemma_value_kept(o, env, s, *binary.lhs, l);
    if let Some((s1, _)) = model::lower_value(env, s, *binary.lhs) {
        lemma_value_kept(o, env, s1, *binary.rhs, l);
    }
}

proof fn lemma_let_kept(o: LowerState, env: LowerEnv, s: LowerState, binding: Let, l: u32)
    requires
        stability::kept(o, s),
        o.code.has_block(o.current),
    ensures
        model::lower_let(env, s, binding) matches Some((after, _)) ==> stability::kept(o, after) && (
            binding.id.0 == l || meaning::binds(*binding.expression, l) || stability::same_local(s, after, l)),
    decreases binding, 0nat,
{
    lemma_lower_kept(o, env, s, *binding.expression, l);
}

proof fn lemma_constrain_kept(
    o: LowerState,
    env: LowerEnv,
    s: LowerState,
    inner: Expression,
    l: u32,
)
    requires
        stability::kept(o, s),
        o.code.has_block(o.current),
    ensures
        model::lower_constrain(env, s, inner) matches Some((after, _)) ==> stability::kept(o, after) && (
            meaning::binds(inner, l) || stability::same_local(s, after, l)),
    decreases inner, 3nat,
{
    lemma_value_kept(o, env, s, inner, l);
}

proof fn lemma_tuple_kept(
    o: LowerState,
    env: LowerEnv,
    s: LowerState,
    exprs: Vec<Expression>,
    l: u32,
)
    requires
        stability::kept(o, s),
        o.code.has_block(o.current),
    ensures
        model::lower_tuple(env, s, exprs) matches Some((after, _)) ==> stability::kept(o, after) && (
            meaning::any_binds(exprs@, exprs@.len(), l) || stability::same_local(s, after, l)),
    decreases exprs, 0nat,
{
    lemma_values_kept(o, env, s, exprs@, exprs@.len(), l);
}

proof fn lemma_index_kept(o: LowerState, env: LowerEnv, s: LowerState, index: Index, l: u32)
    requires
        stability::kept(o, s),
        o.code.has_block(o.current),
    ensures
        model::lower_index(env, s, index) matches Some((after, _)) ==> stability::kept(o, after) && (
            meaning::binds(*index.collection, l) || meaning::binds(*index.index, l) || stability::same_local(s, after, l)),
    decreases index, 0nat,
{
    lemma_value_kept(o, env, s, *index.collection, l);
    if let Some((s1, collection)) = model::lower_value(env, s, *index.collection) {
        let (s2, _) = s1.load_reference(collection, index.collection.return_type);
        lemma_value_kept(o, env, s2, *index.index, l);
    }
}

proof fn lemma_extract_kept(
    o: LowerState,
    env: LowerEnv,
    s: LowerState,
    tuple: Expression,
    field: usize,
    l: u32,
)
    requires
        stability::kept(o, s),
        o.code.has_block(o.current),
    ensures
        model::lower_extract(env, s, tuple, field) matches Some((after, _)) ==> stability::kept(o, after) && (
            meaning::binds(tuple, l) || stability::same_local(s, after, l)),
    decreases tuple, 3nat,
{
    lemma_value_kept(o, env, s, tuple, l);
}

proof fn lemma_cast_kept(o: LowerState, env: LowerEnv, s: LowerState, cast: Cast, l: u32)
    requires
        stability::kept(o, s),
        o.code.has_block(o.current),
    ensures
        model::lower_cast(env, s, cast) matches Some((after, _)) ==> stability::kept(o, after) && (
            meaning::binds(*cast.lhs, l) || stability::same_local(s, after, l)),
    decreases cast, 0nat,
{
    lemma_value_kept(o, env, s, *cast.lhs, l);
}

proof fn lemma_unary_kept(o: LowerState, env: LowerEnv, s: LowerState, unary: Unary, l: u32)
    requires
        stability::kept(o, s),
        o.code.has_block(o.current),
    ensures
        model::lower_unary(env, s, unary) matches Some((after, _)) ==> stability::kept(o, after) && (
            meaning::binds(*unary.rhs, l) || stability::same_local(s, after, l)),
    decreases unary, 0nat,
{
    lemma_lower_kept(o, env, s, *unary.rhs, l);
    lemma_value_kept(o, env, s, *unary.rhs, l);
}

proof fn lemma_array_kept(o: LowerState, env: LowerEnv, s: LowerState, array: ArrayLiteral, l: u32)
    requires
        stability::kept(o, s),
        o.code.has_block(o.current),
    ensures
        model::lower_array(env, s, array) matches Some((after, _)) ==> stability::kept(o, after) && (
            meaning::any_binds(array.contents@, array.contents@.len(), l) || stability::same_local(s, after, l)),
    decreases array, 0nat,
{
    lemma_values_kept(o, env, s, array.contents@, array.contents@.len(), l);
}

pub proof fn lemma_block_kept(
    o: LowerState,
    env: LowerEnv,
    s: LowerState,
    exprs: Seq<Expression>,
    n: nat,
    l: u32,
)
    requires
        stability::kept(o, s),
        o.code.has_block(o.current),
    ensures
        model::lower_block(env, s, exprs, n) matches Some((after, _)) ==> stability::kept(o, after) && (
            meaning::any_binds(exprs, n, l) || stability::same_local(s, after, l)),
    decreases exprs, n,
{
    if 0 < n <= exprs.len() {
        lemma_block_kept(o, env, s, exprs, (n - 1) as nat, l);
        if let Some((s1, _)) = model::lower_block(env, s, exprs, (n - 1) as nat) {
            lemma_lower_kept(o, env, s1, exprs[n - 1], l);
        }
    }
}

proof fn lemma_literal_kept(o: LowerState, env: LowerEnv, s: LowerState, literal: Literal, l: u32)
    requires
        stability::kept(o, s),
        o.code.has_block(o.current),
    ensures
        model::lower_literal(env, s, literal) matches Some((after, _)) ==> stability::kept(o, after) && (
            meaning::literal_binds(literal, l) || stability::same_local(s, after, l)),
    decreases literal, 0nat,
{
    match literal {
        Literal::Array(array) => lemma_array_kept(o, env, s, array, l),
        Literal::Vector(array) => lemma_array_kept(o, env, s, array, l),
        Literal::Repeated { element, .. } => lemma_value_kept(o, env, s, *element, l),
        Literal::Str(text) => {
            let bytes = model::utf8_bytes(text@);
            stability::lemma_constants_add(s, bytes);
            stability::lemma_kept_trans(o, s, model::lower_constants(s, bytes).0);
        },
        Literal::FmtStr(fragments, captures) => {
            let points = model::code_points(model::format_text(fragments@));
            stability::lemma_constants_add(s, points);
            stability::lemma_kept_trans(o, s, model::lower_constants(s, points).0);
            let (s1, _) = model::lower_constant_array(s, points, TypeView::U(32));
            if let ExpressionKind::Tuple(exprs) = captures.kind {
                lemma_values_kept(o, env, s1, exprs@, exprs@.len(), l);
            }
        },
        _ => {},
    }
}

proof fn lemma_static_call_kept(
    o: LowerState,
    env: LowerEnv,
    s: LowerState,
    function: FuncId,
    call: Call,
    l: u32,
)
    requires
        stability::kept(o, s),
        o.code.has_block(o.current),
    ensures
        model::lower_static_call(env, s, function, call) matches Some((after, _)) ==> stability::kept(o, after) && (
            meaning::any_binds(call.arguments@, call.arguments@.len(), l) || stability::same_local(s, after, l)),
    decreases call, 0nat,
{
    lemma_values_kept(o, env, s, call.arguments@, call.arguments@.len(), l);
}

#[verifier::spinoff_prover]
proof fn lemma_first_kept(o: LowerState, env: LowerEnv, s: LowerState, call: Call, l: u32)
    requires
        stability::kept(o, s),
        o.code.has_block(o.current),
    ensures
        model::lower_first(env, s, call) matches Some((after, _)) ==> stability::kept(o, after) && (
            meaning::any_binds(call.arguments@, call.arguments@.len(), l) || stability::same_local(s, after, l)),
    decreases call, 0nat,
{
    if call.arguments@.len() > 0 {
        if meaning::binds(call.arguments@[0], l) {
            lemma_any_binds(call.arguments@, call.arguments@.len(), 0, l);
        }
        lemma_value_kept(o, env, s, call.arguments@[0], l);
    }
}

#[verifier::spinoff_prover]
proof fn lemma_first_two_kept(o: LowerState, env: LowerEnv, s: LowerState, call: Call, l: u32)
    requires
        stability::kept(o, s),
        o.code.has_block(o.current),
    ensures
        model::lower_first_two(env, s, call) matches Some((after, _, _)) ==> stability::kept(o, after) && (
            meaning::any_binds(call.arguments@, call.arguments@.len(), l) || stability::same_local(s, after, l)),
    decreases call, 0nat,
{
    if call.arguments@.len() > 1 {
        if meaning::binds(call.arguments@[0], l) {
            lemma_any_binds(call.arguments@, call.arguments@.len(), 0, l);
        }
        if meaning::binds(call.arguments@[1], l) {
            lemma_any_binds(call.arguments@, call.arguments@.len(), 1, l);
        }
        lemma_value_kept(o, env, s, call.arguments@[0], l);
        if let Some((s1, _)) = model::lower_value(env, s, call.arguments@[0]) {
            lemma_value_kept(o, env, s1, call.arguments@[1], l);
        }
    }
}

proof fn lemma_radix_kept(
    o: LowerState,
    env: LowerEnv,
    s: LowerState,
    call: Call,
    endianness: Endianness,
    l: u32,
)
    requires
        stability::kept(o, s),
        o.code.has_block(o.current),
    ensures
        model::lower_to_radix(env, s, call, endianness) matches Some((after, _)) ==> stability::kept(o, after) && (
            meaning::any_binds(call.arguments@, call.arguments@.len(), l) || stability::same_local(s, after, l)),
        model::lower_to_bits(env, s, call, endianness) matches Some((after, _)) ==> stability::kept(o, after) && (
            meaning::any_binds(call.arguments@, call.arguments@.len(), l) || stability::same_local(s, after, l)),
    decreases call, 1nat,
{
    lemma_first_kept(o, env, s, call, l);
    lemma_first_two_kept(o, env, s, call, l);
}

#[verifier::spinoff_prover]
proof fn lemma_array_len_kept(o: LowerState, env: LowerEnv, s: LowerState, call: Call, l: u32)
    requires
        stability::kept(o, s),
        o.code.has_block(o.current),
    ensures
        model::lower_array_len(env, s, call) matches Some((after, _)) ==> stability::kept(o, after) && (
            meaning::any_binds(call.arguments@, call.arguments@.len(), l) || stability::same_local(s, after, l)),
    decreases call, 1nat,
{
    lemma_first_kept(o, env, s, call, l);
    if call.arguments@.len() > 0 {
        if meaning::binds(call.arguments@[0], l) {
            lemma_any_binds(call.arguments@, call.arguments@.len(), 0, l);
        }
        lemma_lower_kept(o, env, s, call.arguments@[0], l);
    }
}

proof fn lemma_replacement_call_kept(
    o: LowerState,
    env: LowerEnv,
    s: LowerState,
    name: Seq<char>,
    call: Call,
    l: u32,
)
    requires
        stability::kept(o, s),
        o.code.has_block(o.current),
    ensures
        model::lower_replacement_call(env, s, name, call) matches Some((after, _)) ==> stability::kept(o, after) && (
            meaning::any_binds(call.arguments@, call.arguments@.len(), l) || stability::same_local(s, after, l)),
    decreases call, 1nat,
{
    if let Some(function) = model::replacement_for(env, name, call.return_type) {
        lemma_static_call_kept(o, env, s, function, call, l);
    }
}

proof fn lemma_assert_eq_kept(o: LowerState, env: LowerEnv, s: LowerState, call: Call, l: u32)
    requires
        stability::kept(o, s),
        o.code.has_block(o.current),
    ensures
        model::lower_assert_eq(env, s, call) matches Some((after, _)) ==> stability::kept(o, after) && (
            meaning::any_binds(call.arguments@, call.arguments@.len(), l) || stability::same_local(
            s,
            after,
            l,
        )),
    decreases call, 1nat,
{
    lemma_first_two_kept(o, env, s, call, l);
}

proof fn lemma_static_assert_kept(o: LowerState, env: LowerEnv, s: LowerState, call: Call, l: u32)
    requires
        stability::kept(o, s),
        o.code.has_block(o.current),
    ensures
        model::lower_static_assert(env, s, call) matches Some((after, _)) ==> stability::kept(o, after) && (
            meaning::any_binds(call.arguments@, call.arguments@.len(), l) || stability::same_local(
            s,
            after,
            l,
        )),
    decreases call, 1nat,
{
    lemma_first_kept(o, env, s, call, l);
}

proof fn lemma_range_constraint_kept(
    o: LowerState,
    env: LowerEnv,
    s: LowerState,
    call: Call,
    l: u32,
)
    requires
        stability::kept(o, s),
        o.code.has_block(o.current),
    ensures
        model::lower_range_constraint(env, s, call) matches Some((after, _)) ==> stability::kept(o, after) && (
            meaning::any_binds(call.arguments@, call.arguments@.len(), l) || stability::same_local(
            s,
            after,
            l,
        )),
    decreases call, 1nat,
{
    lemma_first_kept(o, env, s, call, l);
}

proof fn lemma_as_vector_kept(o: LowerState, env: LowerEnv, s: LowerState, call: Call, l: u32)
    requires
        stability::kept(o, s),
        o.code.has_block(o.current),
    ensures
        model::lower_as_vector(env, s, call) matches Some((after, _)) ==> stability::kept(o, after) && (
            meaning::any_binds(call.arguments@, call.arguments@.len(), l) || stability::same_local(
            s,
            after,
            l,
        )),
    decreases call, 1nat,
{
    lemma_first_kept(o, env, s, call, l);
}

proof fn lemma_as_witness_kept(o: LowerState, env: LowerEnv, s: LowerState, call: Call, l: u32)
    requires
        stability::kept(o, s),
        o.code.has_block(o.current),
    ensures
        model::lower_as_witness(env, s, call) matches Some((after, _)) ==> stability::kept(o, after) && (
            meaning::any_binds(call.arguments@, call.arguments@.len(), l) || stability::same_local(
            s,
            after,
            l,
        )),
    decreases call, 1nat,
{
    if call.arguments@.len() > 0 {
        if meaning::binds(call.arguments@[0], l) {
            lemma_any_binds(call.arguments@, call.arguments@.len(), 0, l);
        }
        lemma_lower_kept(o, env, s, call.arguments@[0], l);
    }
}

proof fn lemma_builtin_call_kept(
    o: LowerState,
    env: LowerEnv,
    s: LowerState,
    name: Seq<char>,
    call: Call,
    l: u32,
)
    requires
        stability::kept(o, s),
        o.code.has_block(o.current),
    ensures
        model::lower_builtin_call(env, s, name, call) matches Some((after, _)) ==> stability::kept(o, after) && (
            meaning::any_binds(call.arguments@, call.arguments@.len(), l) || stability::same_local(s, after, l)),
    decreases call, 2nat,
{
    lemma_assert_eq_kept(o, env, s, call, l);
    lemma_static_assert_kept(o, env, s, call, l);
    lemma_range_constraint_kept(o, env, s, call, l);
    lemma_as_vector_kept(o, env, s, call, l);
    lemma_as_witness_kept(o, env, s, call, l);
    lemma_array_len_kept(o, env, s, call, l);
    lemma_radix_kept(o, env, s, call, Endianness::Little, l);
    lemma_radix_kept(o, env, s, call, Endianness::Big, l);
    lemma_replacement_call_kept(o, env, s, name, call, l);
}

proof fn lemma_lowlevel_call_kept(
    o: LowerState,
    env: LowerEnv,
    s: LowerState,
    name: Seq<char>,
    call: Call,
    l: u32,
)
    requires
        stability::kept(o, s),
        o.code.has_block(o.current),
    ensures
        model::lower_lowlevel_call(env, s, name, call) matches Some((after, _)) ==> stability::kept(o, after) && (
            meaning::any_binds(call.arguments@, call.arguments@.len(), l) || stability::same_local(s, after, l)),
    decreases call, 2nat,
{
    lemma_intrinsic_kept(o, env, s, name, call, l);
    lemma_replacement_call_kept(o, env, s, name, call, l);
}

proof fn lemma_intrinsic_kept(
    o: LowerState,
    env: LowerEnv,
    s: LowerState,
    name: Seq<char>,
    call: Call,
    l: u32,
)
    requires
        stability::kept(o, s),
        o.code.has_block(o.current),
    ensures
        model::lower_intrinsic(env, s, name, call) matches Some((after, _)) ==> stability::kept(o, after) && (
            meaning::any_binds(call.arguments@, call.arguments@.len(), l) || stability::same_local(s, after, l)),
    decreases call, 1nat,
{
    lemma_first_kept(o, env, s, call, l);
}

proof fn lemma_call_kept(o: LowerState, env: LowerEnv, s: LowerState, call: Call, l: u32)
    requires
        stability::kept(o, s),
        o.code.has_block(o.current),
    ensures
        model::lower_call(env, s, call) matches Some((after, _)) ==> stability::kept(o, after) && (
            meaning::call_binds(call, l) || stability::same_local(s, after, l)),
    decreases call, 3nat,
{
    match call.func.kind {
        ExpressionKind::Ident(ident) => match ident.definition {
            Definition::Function(function) => lemma_static_call_kept(o, env, s, function, call, l),
            Definition::Builtin(name) => lemma_builtin_call_kept(o, env, s, name@, call, l),
            Definition::LowLevel(name) => lemma_lowlevel_call_kept(o, env, s, name@, call, l),
            _ => {},
        },
        _ => {
            lemma_values_kept(o, env, s, call.arguments@, call.arguments@.len(), l);
            if let Some((s1, _)) = model::lower_values(
                env,
                s,
                call.arguments@,
                call.arguments@.len(),
            ) {
                lemma_value_kept(o, env, s1, *call.func, l);
            }
        },
    }
}

pub proof fn lemma_place_kept(o: LowerState, env: LowerEnv, s: LowerState, lvalue: LValue, l: u32)
    requires
        stability::kept(o, s),
        o.code.has_block(o.current),
    ensures
        model::lower_place(env, s, lvalue) matches Some((after, _)) ==> stability::kept(o, after) && (
            meaning::lvalue_binds(lvalue, l) || stability::same_local(s, after, l)),
    decreases lvalue, 0nat,
{
    match lvalue {
        LValue::Ident(_) => {},
        LValue::Index { array, index } => {
            lemma_place_kept(o, env, s, *array, l);
            if let Some((s1, _)) = model::lower_place(env, s, *array) {
                lemma_value_kept(o, env, s1, *index, l);
            }
        },
        LValue::MemberAccess { object, .. } => {
            lemma_place_kept(o, env, s, *object, l);
        },
        LValue::Dereference { reference, .. } => {
            lemma_lvalue_read_kept(o, env, s, *reference, l);
        },
        LValue::Clone(inner) => {
            lemma_place_kept(o, env, s, *inner, l);
        },
    }
}

pub proof fn lemma_lvalue_read_kept(
    o: LowerState,
    env: LowerEnv,
    s: LowerState,
    lvalue: LValue,
    l: u32,
)
    requires
        stability::kept(o, s),
        o.code.has_block(o.current),
    ensures
        model::lower_lvalue_read(env, s, lvalue) matches Some((after, _)) ==> stability::kept(o, after) && (
            false || stability::same_local(s, after, l)),
    decreases lvalue,
{
    if let LValue::Dereference { reference, .. } = lvalue {
        lemma_lvalue_read_kept(o, env, s, *reference, l);
    }
}

proof fn lemma_assign_kept(o: LowerState, env: LowerEnv, s: LowerState, assign: Assign, l: u32)
    requires
        stability::kept(o, s),
        o.code.has_block(o.current),
    ensures
        model::lower_assign(env, s, assign) matches Some((after, _)) ==> stability::kept(o, after) && (
            meaning::binds(*assign.expression, l) || meaning::lvalue_binds(assign.lvalue, l) || stability::same_local(s, after, l)),
    decreases assign, 0nat,
{
    lemma_value_kept(o, env, s, *assign.expression, l);
    if let Some((s1, new_value)) = model::lower_value(env, s, *assign.expression) {
        lemma_place_kept(o, env, s1, assign.lvalue, l);
        if let Some((s2, place)) = model::lower_place(env, s1, assign.lvalue) {
            let (s3, whole) = s2.value(Opcode::Load, seq![place.root], seq![]);
            stability::lemma_replace_adds(s3, whole, place.typ, place.path, new_value);
            if let Some((s4, _)) = model::lower_replace(
                s3,
                whole,
                place.typ,
                place.path,
                new_value,
            ) {
                stability::lemma_kept_trans(o, s3, s4);
            }
        }
    }
}

/// The rest of a `for` loop, once its bounds have been converted.
#[verifier::spinoff_prover]
pub proof fn lemma_for_rest_kept(
    o: LowerState,
    env: LowerEnv,
    s: LowerState,
    for_expr: For,
    start: ValueId,
    end: ValueId,
    bits: usize,
    l: u32,
)
    requires
        stability::kept(o, s),
        o.code.has_block(o.current),
    ensures
        model::lower_for_rest(env, s, for_expr, start, end, bits) matches Some((after, _))
            ==> stability::kept(o, after) && (for_expr.index_variable.0 == l || meaning::binds(
            *for_expr.block,
            l,
        ) || stability::same_local(s, after, l)),
    decreases for_expr, 0nat,
{
    let header = s.code.next_block();
    let body = s.add_block().code.next_block();
    let exit = s.add_block().add_block().code.next_block();
    let s4 = s.add_block().add_block().add_block();
    let index = s4.next();
    let typ = type_converter::ssa_type(for_expr.index_type);
    let (s6, cond) = s4.parameter(header, typ).at(header).binary(BinaryOp::Lt, index, end);
    let s7 = s6.branch(header, cond, body, exit).jump(s.current, header, seq![start]);
    let context = LoopContext {
        loop_header: header,
        exit_block: exit,
        for_loop_index: Some((index, bits)),
    };
    let inside = s7.at(body).bind(for_expr.index_variable, index).enter(context);
    lemma_has_block(o, s);
    lemma_for_inside(s, inside, for_expr.index_variable, typ, start, end, context);
    lemma_lower_kept(inside, env, inside, *for_expr.block, l);
    if let Some((done, _)) = model::lower(env, inside, *for_expr.block) {
        let last = done.leave().close_round(context).at(exit);
        assert(inside.loops.drop_last() =~= s.loops);
        lemma_has_block(inside, done);
        lemma_loop_around(s, inside, done, last, context, body, exit);
        stability::lemma_kept_trans(o, s, last);
        lemma_close_round_binds(done.leave(), context, exit);
    }
}

#[verifier::spinoff_prover]
proof fn lemma_for_kept(o: LowerState, env: LowerEnv, s: LowerState, for_expr: For, l: u32)
    requires
        stability::kept(o, s),
        o.code.has_block(o.current),
    ensures
        model::lower_for(env, s, for_expr) matches Some((after, _)) ==> stability::kept(o, after) && (
            meaning::for_binds(for_expr, l) || stability::same_local(s, after, l)),
    decreases for_expr, 1nat,
{
    lemma_value_kept(o, env, s, *for_expr.start_range, l);
    if let Some((s1, start)) = model::lower_value(env, s, *for_expr.start_range) {
        lemma_value_kept(o, env, s1, *for_expr.end_range, l);
        if let Some((s2, end_raw)) = model::lower_value(env, s1, *for_expr.end_range) {
            if let Some(bits) = type_converter::ssa_type(for_expr.index_type).bit_size() {
                let (s3, end) = if for_expr.inclusive {
                    s2.next_index(end_raw, bits)
                } else {
                    (s2, end_raw)
                };
                lemma_for_rest_kept(o, env, s3, for_expr, start, end, bits, l);
            }
        }
    }
}

#[verifier::spinoff_prover]
proof fn lemma_while_kept(o: LowerState, env: LowerEnv, s: LowerState, while_expr: While, l: u32)
    requires
        stability::kept(o, s),
        o.code.has_block(o.current),
    ensures
        model::lower_while(env, s, while_expr) matches Some((after, _)) ==> stability::kept(o, after) && (
            meaning::binds(*while_expr.condition, l) || meaning::binds(*while_expr.body, l) || stability::same_local(s, after, l)),
    decreases while_expr, 0nat,
{
    lemma_has_block(o, s);
    let header = s.code.next_block();
    let body = s.add_block().code.next_block();
    let exit = s.add_block().add_block().code.next_block();
    let s1 = s.add_block().add_block().add_block().jump(s.current, header, seq![]).at(header);
    lemma_value_kept(s1, env, s1, *while_expr.condition, l);
    if let Some((s2, cond)) = model::lower_value(env, s1, *while_expr.condition) {
        let context = LoopContext { loop_header: header, exit_block: exit, for_loop_index: None };
        let s3 = s2.branch(header, cond, body, exit).at(body).enter(context);
        lemma_has_block(s1, s2);
        lemma_lower_kept(s3, env, s3, *while_expr.body, l);
        if let Some((s4, _)) = model::lower(env, s3, *while_expr.body) {
            let last = s4.leave().close_round(context).at(exit);
            assert(s3.loops.drop_last() =~= s.loops);
            lemma_has_block(s3, s4);
            lemma_while_around(s, s1, s2, cond, s3, s4, last, context);
            stability::lemma_kept_trans(o, s, last);
            lemma_close_round_binds(s4.leave(), context, exit);
        }
    }
}

proof fn lemma_loop_kept(o: LowerState, env: LowerEnv, s: LowerState, body: Expression, l: u32)
    requires
        stability::kept(o, s),
        o.code.has_block(o.current),
    ensures
        model::lower_loop(env, s, body) matches Some((after, _)) ==> stability::kept(o, after) && (
            meaning::binds(body, l) || stability::same_local(s, after, l)),
    decreases body, 3nat,
{
    lemma_has_block(o, s);
    let header = s.code.next_block();
    let exit = s.add_block().code.next_block();
    let context = LoopContext { loop_header: header, exit_block: exit, for_loop_index: None };
    let s1 = s.add_block().add_block().jump(s.current, header, seq![]).at(header).enter(context);
    lemma_lower_kept(s1, env, s1, body, l);
    if let Some((s2, _)) = model::lower(env, s1, body) {
        let last = s2.leave().close_round(context).at(exit);
        assert(s1.loops.drop_last() =~= s.loops);
        lemma_has_block(s1, s2);
        lemma_loop_around(s, s1, s2, last, context, header, exit);
        stability::lemma_kept_trans(o, s, last);
        lemma_close_round_binds(s2.leave(), context, exit);
    }
}

#[verifier::spinoff_prover]
proof fn lemma_if_kept(o: LowerState, env: LowerEnv, s: LowerState, if_expr: If, l: u32)
    requires
        stability::kept(o, s),
        o.code.has_block(o.current),
    ensures
        model::lower_if(env, s, if_expr) matches Some((after, _)) ==> stability::kept(o, after) && (
            meaning::if_binds(if_expr, l) || stability::same_local(s, after, l)),
    decreases if_expr, 0nat,
{
    lemma_lower_kept(o, env, s, *if_expr.consequence, l);
    if let Some(alternative) = if_expr.alternative {
        lemma_lower_kept(o, env, s, *alternative, l);
    }
    lemma_value_kept(o, env, s, *if_expr.condition, l);
    if let Some((s1, cond)) = model::lower_value(env, s, *if_expr.condition) {
        let then_block = s1.code.next_block();
        let else_block = s1.add_block().code.next_block();
        let s2 = s1.add_block().add_block().add_block().branch(
            s1.current,
            cond,
            then_block,
            else_block,
        ).at(then_block);
        lemma_has_block(o, s1);
        lemma_lower_kept(s2, env, s2, *if_expr.consequence, l);
        if let Some((s3, _)) = model::lower(env, s2, *if_expr.consequence) {
            let s4 = s3.at(else_block);
            lemma_has_block(s2, s3);
            let lowered = match if_expr.alternative {
                Some(alternative) => model::lower(env, s4, *alternative),
                None => Some((s4, None)),
            };
            if let Some(alternative) = if_expr.alternative {
                lemma_lower_kept(s4, env, s4, *alternative, l);
            }
            if let (Some((s5, _)), Some((last, _))) = (lowered, model::lower_if(env, s, if_expr)) {
                if model::const_bool(env, *if_expr.condition) is None {
                    lemma_if_around(s1, s2, s3, s4, s5, last, cond);
                    stability::lemma_kept_trans(o, s1, last);
                }
            }
        }
    }
}

} // verus!
