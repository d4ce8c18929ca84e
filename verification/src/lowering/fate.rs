//! What expressions come to whose conditions are not known beforehand, and what loops come to.
//!
//! Where an expression is a straight line, its fate is its meaning. Beyond that, control may branch
//! where nothing waits for a value: in the statements of a block, in what a variable is bound to,
//! in the branches of an `if`, in the body of a loop. The condition of an `if` or a `while` and the
//! bounds of a `for` are straight lines. A loop has a fate if it ends within a given number of
//! rounds.

use vstd::prelude::*;
use crate::ast::{Expression, ExpressionKind, For, If, Let, While};
use crate::lowering::meaning;
use crate::lowering::meaning::{Meaning, Scope};
use crate::lowering::model::LowerEnv;
use crate::ssa::hlssa::{BinaryOp, Opcode};
use crate::ssa::semantics;
use crate::ssa::semantics::{Data, Heap, World};

verus! {

/// The variables that an expression binds, in whichever branch of it.
pub open spec fn bound_in(e: Expression) -> Set<u32> {
    Set::new(|l: u32| meaning::binds(e, l))
}

/// The variables that the other branch binds, where there is one.
pub open spec fn bound_otherwise(if_expr: If) -> Set<u32> {
    match if_expr.alternative {
        Some(alternative) => bound_in(*alternative),
        None => Set::empty(),
    }
}

/// What an expression comes to, if no loop in it makes more than so many rounds.
pub open spec fn fate(
    env: LowerEnv,
    world: World,
    rounds: nat,
    scope: Scope,
    e: Expression,
) -> Meaning
    decreases e, 1nat,
{
    match meaning::meaning(env, world, scope, e) {
        Some(straight) => Some(straight),
        None => match e.kind {
            ExpressionKind::Semi(inner) => match fate(env, world, rounds, scope, *inner) {
                Some((after, _)) => Some((after, None)),
                None => None,
            },
            ExpressionKind::Block(exprs) => block_fate(env, world, rounds, scope, exprs@, exprs@.len()),
            ExpressionKind::Let(binding) => let_fate(env, world, rounds, scope, binding),
            ExpressionKind::If(if_expr) => if_fate(env, world, rounds, scope, if_expr),
            ExpressionKind::For(for_expr) => for_fate(env, world, rounds, scope, for_expr),
            ExpressionKind::While(while_expr) => while_fate(env, world, rounds, scope, while_expr),
            ExpressionKind::Loop(body) => loop_fate(env, world, rounds, scope, *body),
            _ => None,
        },
    }
}

/// What the first `n` expressions of a block come to, one after the other.
pub open spec fn block_fate(
    env: LowerEnv,
    world: World,
    rounds: nat,
    scope: Scope,
    exprs: Seq<Expression>,
    n: nat,
) -> Meaning
    decreases exprs, n,
{
    if n == 0 {
        Some((scope, None))
    } else if n > exprs.len() {
        None
    } else {
        match block_fate(env, world, rounds, scope, exprs, (n - 1) as nat) {
            None => None,
            Some((middle, _)) => fate(env, world, rounds, middle, exprs[n - 1]),
        }
    }
}

/// What a variable is bound to.
pub open spec fn let_fate(
    env: LowerEnv,
    world: World,
    rounds: nat,
    scope: Scope,
    binding: Let,
) -> Meaning
    decreases binding, 0nat,
{
    match fate(env, world, rounds, scope, *binding.expression) {
        None => None,
        Some((after, value)) => match meaning::let_bound(binding, after, value) {
            Some(last) => Some((last, None)),
            None => None,
        },
    }
}

/// The branches of an `if` meet again with a value, unless the `if` has none.
pub open spec fn joined(if_expr: If, scope: Scope, value: Option<Data>) -> Meaning {
    if if_expr.typ is Unit {
        Some((scope, None))
    } else {
        match value {
            Some(data) => Some((scope, Some(data))),
            None => None,
        }
    }
}

/// Only the branch that the condition leads to is followed. Where control parts, the branches meet
/// again, and what the other one binds is hidden.
pub open spec fn if_fate(
    env: LowerEnv,
    world: World,
    rounds: nat,
    scope: Scope,
    if_expr: If,
) -> Meaning
    decreases if_expr, 0nat,
{
    let parts = !meaning::is_known(*if_expr.condition);
    match meaning::value_meaning(env, world, scope, *if_expr.condition) {
        None => None,
        Some((middle, data)) => if data == semantics::truth(true) {
            match fate(env, world, rounds, middle, *if_expr.consequence) {
                None => None,
                Some((after, value)) => if !parts {
                    Some((after, value))
                } else if bound_otherwise(if_expr).disjoint(after.locals.dom()) {
                    joined(if_expr, after.without(bound_otherwise(if_expr)), value)
                } else {
                    None
                },
            }
        } else if data == semantics::truth(false) {
            let inside = if parts {
                middle.without(bound_in(*if_expr.consequence))
            } else {
                middle
            };
            if parts && !bound_in(*if_expr.consequence).disjoint(middle.locals.dom()) {
                None
            } else {
                match if_expr.alternative {
                    None => if parts {
                        joined(if_expr, inside, None)
                    } else {
                        Some((inside, None))
                    },
                    Some(alternative) => match fate(env, world, rounds, inside, *alternative) {
                        None => None,
                        Some((after, value)) => if parts {
                            joined(if_expr, after, value)
                        } else {
                            Some((after, value))
                        },
                    },
                }
            }
        } else {
            None
        },
    }
}

/// The number that follows an index. What addition does, the world knows.
pub open spec fn next_number(world: World, scope: Scope, index: Data) -> Option<(Scope, Data)> {
    match meaning::world_value(
        world,
        scope,
        Opcode::Binary(BinaryOp::Add),
        seq![index, Data::Number(1)],
    ) {
        Some((after, Some(next))) => Some((after, next)),
        _ => None,
    }
}

/// The variables that a `for` loop binds: its index, and what its body binds.
pub open spec fn bound_in_for(for_expr: For) -> Set<u32> {
    bound_in(*for_expr.block).insert(for_expr.index_variable.0)
}

/// The bounds, lower before upper, and the rounds. What the rounds bind is hidden after them.
pub open spec fn for_fate(
    env: LowerEnv,
    world: World,
    rounds: nat,
    scope: Scope,
    for_expr: For,
) -> Meaning
    decreases for_expr, rounds + 2,
{
    match meaning::value_meaning(env, world, scope, *for_expr.start_range) {
        None => None,
        Some((scope1, first)) => match meaning::value_meaning(
            env,
            world,
            scope1,
            *for_expr.end_range,
        ) {
            None => None,
            Some((scope2, upper)) => {
                let limited = if for_expr.inclusive {
                    next_number(world, scope2, upper)
                } else {
                    Some((scope2, upper))
                };
                match limited {
                    None => None,
                    Some((scope3, limit)) => counted(env, world, rounds, scope3, for_expr, first, limit),
                }
            },
        },
    }
}

/// The rounds of a `for` loop, from one index to another.
pub open spec fn counted(
    env: LowerEnv,
    world: World,
    rounds: nat,
    scope: Scope,
    for_expr: For,
    first: Data,
    limit: Data,
) -> Meaning
    decreases for_expr, rounds + 1,
{
    let local = for_expr.index_variable.0;
    if !bound_in_for(for_expr).disjoint(scope.locals.dom()) || scope.hidden.contains(local)
        || scope.mutable.contains(local) {
        None
    } else {
        match for_rounds(env, world, rounds, scope, for_expr, first, limit, rounds) {
            Some(heap) => Some((Scope { heap, ..scope }.without(bound_in_for(for_expr)), None)),
            None => None,
        }
    }
}

/// The heap after the rounds that are left, of which there are at most `n`.
pub open spec fn for_rounds(
    env: LowerEnv,
    world: World,
    rounds: nat,
    scope: Scope,
    for_expr: For,
    index: Data,
    limit: Data,
    n: nat,
) -> Option<Heap>
    decreases for_expr, n,
{
    match (index, limit) {
        (Data::Number(x), Data::Number(y)) => if x >= y {
            Some(scope.heap)
        } else if n == 0 {
            None
        } else {
            match round(
                env,
                world,
                rounds,
                scope.bind(for_expr.index_variable, index),
                *for_expr.block,
            ) {
                None => None,
                Some((heap, false)) => Some(heap),
                Some((heap, true)) => match next_number(world, Scope { heap, ..scope }, index) {
                    None => None,
                    Some((next, number)) => for_rounds(
                        env,
                        world,
                        rounds,
                        next,
                        for_expr,
                        number,
                        limit,
                        (n - 1) as nat,
                    ),
                },
            }
        },
        _ => None,
    }
}

/// How a round of a loop is left before its end.
pub enum Leave {
    Break,
    Continue,
}

/// Where an expression leaves the round of the loop that encloses it, if it does: the variables and
/// the heap there, and how the round is left.
pub open spec fn leaves(
    env: LowerEnv,
    world: World,
    rounds: nat,
    scope: Scope,
    e: Expression,
) -> Option<(Scope, Leave)>
    decreases e, 1nat,
{
    match e.kind {
        ExpressionKind::Break => Some((scope, Leave::Break)),
        ExpressionKind::Continue => Some((scope, Leave::Continue)),
        ExpressionKind::Semi(inner) => leaves(env, world, rounds, scope, *inner),
        ExpressionKind::Block(exprs) => block_leaves(
            env,
            world,
            rounds,
            scope,
            exprs@,
            exprs@.len(),
        ),
        ExpressionKind::If(if_expr) => if_leaves(env, world, rounds, scope, if_expr),
        _ => None,
    }
}

/// Where one of the first `n` expressions of a block leaves the round, the ones before it having
/// been gone through.
pub open spec fn block_leaves(
    env: LowerEnv,
    world: World,
    rounds: nat,
    scope: Scope,
    exprs: Seq<Expression>,
    n: nat,
) -> Option<(Scope, Leave)>
    decreases exprs, n,
{
    if n == 0 || n > exprs.len() {
        None
    } else {
        match block_leaves(env, world, rounds, scope, exprs, (n - 1) as nat) {
            Some(left) => Some(left),
            None => match block_fate(env, world, rounds, scope, exprs, (n - 1) as nat) {
                Some((middle, _)) => leaves(env, world, rounds, middle, exprs[n - 1]),
                None => None,
            },
        }
    }
}

/// Where the branch of an `if` that is taken leaves the round.
pub open spec fn if_leaves(
    env: LowerEnv,
    world: World,
    rounds: nat,
    scope: Scope,
    if_expr: If,
) -> Option<(Scope, Leave)>
    decreases if_expr, 0nat,
{
    let parts = !meaning::is_known(*if_expr.condition);
    match meaning::value_meaning(env, world, scope, *if_expr.condition) {
        None => None,
        Some((middle, data)) => if data == semantics::truth(true) {
            leaves(env, world, rounds, middle, *if_expr.consequence)
        } else if data == semantics::truth(false) && (!parts || bound_in(
            *if_expr.consequence,
        ).disjoint(middle.locals.dom())) {
            let inside = if parts {
                middle.without(bound_in(*if_expr.consequence))
            } else {
                middle
            };
            match if_expr.alternative {
                Some(alternative) => leaves(env, world, rounds, inside, *alternative),
                None => None,
            }
        } else {
            None
        },
    }
}

/// One round of a loop: the heap after it, and whether there may be another.
pub open spec fn round(
    env: LowerEnv,
    world: World,
    rounds: nat,
    scope: Scope,
    body: Expression,
) -> Option<(Heap, bool)>
    decreases body, 2nat,
{
    match fate(env, world, rounds, scope, body) {
        Some((after, _)) => Some((after.heap, true)),
        None => match leaves(env, world, rounds, scope, body) {
            Some((after, Leave::Continue)) => Some((after.heap, true)),
            Some((after, Leave::Break)) => Some((after.heap, false)),
            None => None,
        },
    }
}

/// The rounds of a `loop`. What they bind is hidden after them.
pub open spec fn loop_fate(
    env: LowerEnv,
    world: World,
    rounds: nat,
    scope: Scope,
    body: Expression,
) -> Meaning
    decreases body, rounds + 4,
{
    if !bound_in(body).disjoint(scope.locals.dom()) {
        None
    } else {
        match loop_rounds(env, world, rounds, scope, body, rounds) {
            Some(heap) => Some((Scope { heap, ..scope }.without(bound_in(body)), None)),
            None => None,
        }
    }
}

/// The heap after the rounds of a `loop`, of which there are at most `n`.
pub open spec fn loop_rounds(
    env: LowerEnv,
    world: World,
    rounds: nat,
    scope: Scope,
    body: Expression,
    n: nat,
) -> Option<Heap>
    decreases body, n + 3,
{
    if n == 0 {
        None
    } else {
        match round(env, world, rounds, scope, body) {
            None => None,
            Some((heap, false)) => Some(heap),
            Some((heap, true)) => loop_rounds(
                env,
                world,
                rounds,
                Scope { heap, ..scope },
                body,
                (n - 1) as nat,
            ),
        }
    }
}

/// The variables that a `while` loop binds.
pub open spec fn bound_in_while(while_expr: While) -> Set<u32> {
    bound_in(*while_expr.condition).union(bound_in(*while_expr.body))
}

/// The rounds of a `while` loop. What they bind is hidden after them.
pub open spec fn while_fate(
    env: LowerEnv,
    world: World,
    rounds: nat,
    scope: Scope,
    while_expr: While,
) -> Meaning
    decreases while_expr, rounds + 1,
{
    if !bound_in_while(while_expr).disjoint(scope.locals.dom()) {
        None
    } else {
        match while_rounds(env, world, rounds, scope, while_expr, rounds) {
            Some(heap) => Some((Scope { heap, ..scope }.without(bound_in_while(while_expr)), None)),
            None => None,
        }
    }
}

/// The heap after the rounds of a `while` loop that are left, of which there are at most `n`. The
/// condition is a straight line.
pub open spec fn while_rounds(
    env: LowerEnv,
    world: World,
    rounds: nat,
    scope: Scope,
    while_expr: While,
    n: nat,
) -> Option<Heap>
    decreases while_expr, n,
{
    match meaning::value_meaning(env, world, scope, *while_expr.condition) {
        None => None,
        Some((middle, data)) => if data == semantics::truth(false) {
            Some(middle.heap)
        } else if data != semantics::truth(true) || n == 0 {
            None
        } else {
            match round(env, world, rounds, middle, *while_expr.body) {
                None => None,
                Some((heap, false)) => Some(heap),
                Some((heap, true)) => while_rounds(
                    env,
                    world,
                    rounds,
                    Scope { heap, ..scope },
                    while_expr,
                    (n - 1) as nat,
                ),
            }
        },
    }
}

} // verus!
