//! The code of expressions, branches and loops and all, does what the expressions come to.
//!
//! Control goes through the blocks of the code as the program goes through its branches and rounds.
//! Each round of a loop runs the same code: what the round before it computed is still held, but
//! is not read.

use vstd::prelude::*;
use crate::ast::{Expression, ExpressionKind, For, If, Let, While};
use crate::lowering::correctness;
use crate::lowering::correctness::Origin;
use crate::lowering::execution;
use crate::lowering::fate;
use crate::lowering::fate::Leave;
use crate::lowering::frame;
use crate::lowering::laws;
use crate::lowering::meaning;
use crate::lowering::meaning::Scope;
use crate::lowering::model;
use crate::lowering::model::{LoopContext, LowerEnv, LowerState};
use crate::lowering::stability;
use crate::lowering::type_converter;
use crate::ssa::builder;
use crate::ssa::builder::Code;
use crate::ssa::control;
use crate::ssa::control::Point;
use crate::ssa::hlssa::{
    BinaryOp, ConstantView, InstructionView, Opcode, TerminatorView, TypeView, ValueDefView, ValueId,
};
use crate::ssa::semantics;
use crate::ssa::semantics::{Data, Heap, Machine, World};

verus! {

/// The end of the code that has been written so far.
pub open spec fn end_of(s: LowerState, machine: Machine) -> Point {
    Point { block: s.current, position: s.instructions().len(), machine }
}

/// In the code that has been written, control gets from the end of what was written before to the
/// end of what is written now.
#[verifier::opaque]
pub open spec fn travels(
    world: World,
    before: LowerState,
    start: Machine,
    after: LowerState,
    end: Machine,
) -> bool {
    &&& before.code.has_block(before.current)
    &&& stability::settled(after)
    &&& before.code.values.is_prefix_of(after.code.values)
    &&& before.has_all(start)
    &&& after.has_all(end)
    &&& execution::extends(start.held, end.held)
    &&& execution::extends(execution::loaded(before, start, after).held, end.held)
    &&& control::reaches(
        world,
        after.code,
        end_of(before, execution::loaded(before, start, after)),
        end_of(after, end),
    )
}

proof fn lemma_travels_refl(world: World, s: LowerState, machine: Machine)
    requires
        stability::settled(s),
        s.has_all(machine),
    ensures
        travels(world, s, machine, s, machine),
{
    reveal(travels);
    assert(execution::loaded(s, machine, s) =~= machine);
    control::lemma_reaches_refl(world, s.code, end_of(s, machine));
}

/// The constants that have been added.
pub open spec fn constants_added(s: LowerState, after: LowerState) -> Map<ValueId, Data> {
    Map::new(
        |v: ValueId| execution::added_data(s, after, v) is Some,
        |v: ValueId| execution::added_data(s, after, v)->0,
    )
}

/// Constants are there from the start, whenever they are added.
proof fn lemma_loaded(before: LowerState, start: Machine, s: LowerState, after: LowerState)
    requires
        before.has_all(start),
        before.code.values.is_prefix_of(s.code.values),
        s.code.values.is_prefix_of(after.code.values),
    ensures
        execution::loaded(before, start, after) == control::over(
            execution::loaded(before, start, s),
            constants_added(s, after),
        ),
        execution::loaded(before, start, after) == execution::loaded(
            s,
            execution::loaded(before, start, s),
            after,
        ),
{
    assert forall|v: ValueId| #[trigger]
        execution::added_data(before, after, v) == match execution::added_data(before, s, v) {
            Some(data) => Some(data),
            None => execution::added_data(s, after, v),
        } by {
        if v.0 < s.code.values.len() {
            assert(after.code.values[v.0 as int] == s.code.values[v.0 as int]);
        }
    }
    let all = execution::loaded(before, start, after);
    let first = execution::loaded(before, start, s);
    assert(all.held =~= control::over(first, constants_added(s, after)).held);
    assert(all.held =~= execution::loaded(s, first, after).held);
}

/// What is there from the start is there later.
proof fn lemma_loaded_extends(
    before: LowerState,
    start: Machine,
    s: LowerState,
    machine: Machine,
    last: LowerState,
)
    requires
        before.has_all(start),
        s.has_all(machine),
        before.code.values.is_prefix_of(s.code.values),
        s.code.values.is_prefix_of(last.code.values),
        execution::extends(execution::loaded(before, start, s).held, machine.held),
    ensures
        execution::extends(
            execution::loaded(before, start, last).held,
            execution::loaded(s, machine, last).held,
        ),
{
    lemma_loaded(before, start, s, last);
    let first = execution::loaded(before, start, s).held;
    assert forall|v: ValueId| #[trigger]
        execution::loaded(before, start, last).held.contains_key(v) implies {
        let more = execution::loaded(s, machine, last).held;
        more.contains_key(v) && more[v] == execution::loaded(before, start, last).held[v]
    } by {
        if first.contains_key(v) {
            assert(machine.held.contains_key(v));
        } else {
            assert(execution::added_data(s, last, v) is Some);
            assert(!machine.held.contains_key(v));
        }
    }
}

/// What has been written of a machine's way holds in whatever the code grows into.
proof fn lemma_carry(
    world: World,
    before: LowerState,
    start: Machine,
    s: LowerState,
    machine: Machine,
    last: LowerState,
)
    requires
        travels(world, before, start, s, machine),
        control::carries(s.code, last.code),
        s.code.values.is_prefix_of(last.code.values),
    ensures
        control::reaches(
            world,
            last.code,
            end_of(before, execution::loaded(before, start, last)),
            end_of(s, execution::loaded(s, machine, last)),
        ),
{
    reveal(travels);
    let first = execution::loaded(before, start, s);
    let extra = constants_added(s, last);
    lemma_loaded(before, start, s, last);
    lemma_loaded(s, machine, s, last);
    assert(execution::loaded(s, machine, s) =~= machine);
    control::lemma_reaches_carried(
        world,
        s.code,
        last.code,
        end_of(before, first),
        end_of(s, machine),
    );
    control::lemma_reaches_over(world, last.code, end_of(before, first), end_of(s, machine), extra);
    assert(control::point_over(end_of(before, first), extra) == end_of(
        before,
        execution::loaded(before, start, last),
    ));
    assert(control::point_over(end_of(s, machine), extra) == end_of(
        s,
        execution::loaded(s, machine, last),
    ));
}

/// Code that has only been added to.
proof fn lemma_kept_carries(s: LowerState, after: LowerState)
    requires
        stability::kept(s, after),
        stability::settled(s),
        after.code.blocks.len() <= usize::MAX,
    ensures
        control::carries(s.code, after.code),
        s.code.values.is_prefix_of(after.code.values),
        stability::settled(after),
{
    reveal(stability::kept);
    assert forall|b: int| 0 <= b < s.code.blocks.len() implies control::added_to(
        s.code.blocks[b],
        #[trigger] after.code.blocks[b],
    ) by {
        if b != s.current.0 {
            assert(after.code.blocks[b] == s.code.blocks[b]);
        }
    }
}

/// A straight line goes on from where control has got to.
proof fn lemma_travels_straight(
    world: World,
    before: LowerState,
    start: Machine,
    s: LowerState,
    machine: Machine,
    after: LowerState,
    end: Machine,
)
    requires
        travels(world, before, start, s, machine),
        execution::runs(world, s, machine, after, end),
        stability::kept(s, after),
        after.code.blocks.len() <= usize::MAX,
    ensures
        travels(world, before, start, after, end),
{
    assert(stability::settled(s) && before.code.values.is_prefix_of(s.code.values)
        && before.has_all(start) && s.has_all(machine) && execution::extends(
        start.held,
        machine.held,
    ) && execution::extends(execution::loaded(before, start, s).held, machine.held)) by {
        reveal(travels);
    }
    lemma_kept_carries(s, after);
    lemma_loaded_extends(before, start, s, machine, after);
    lemma_carry(world, before, start, s, machine, after);
    reveal(execution::runs);
    let loaded = execution::loaded(s, machine, after);
    let written = execution::written(s, after);
    control::lemma_reaches_run(
        world,
        after.code,
        s.current,
        s.instructions().len(),
        loaded,
        written,
        end,
    );
    control::lemma_reaches_trans(
        world,
        after.code,
        end_of(before, execution::loaded(before, start, after)),
        end_of(s, loaded),
        end_of(after, end),
    );
    assert(before.code.values.is_prefix_of(after.code.values)) by {
        assert forall|i: int| 0 <= i < before.code.values.len() implies after.code.values[i]
            == before.code.values[i] by {
            assert(s.code.values[i] == before.code.values[i]);
        }
    }
    reveal(travels);
}

/// Control has got to the end of what is written, and the machine agrees with the scope.
pub open spec fn arrived(o: Origin, s: LowerState, machine: Machine, scope: Scope) -> bool {
    &&& travels(o.world, o.before, o.start, s, machine)
    &&& correctness::agrees(s, machine, scope)
}

/// The code of an expression can be numbered.
pub open spec fn is_numbered(s: LowerState) -> bool {
    s.code.values.len() <= usize::MAX && s.code.blocks.len() <= usize::MAX
}

/// A straight line.
proof fn lemma_straight(
    o: Origin,
    s: LowerState,
    machine: Machine,
    scope: Scope,
    e: Expression,
) -> (end: Machine)
    requires
        arrived(o, s, machine, scope),
        meaning::meaning(o.env, o.world, scope, e) is Some,
        model::lower(o.env, s, e) matches Some((after, _)) && is_numbered(after),
    ensures
        ({
            let (after, result) = model::lower(o.env, s, e)->0;
            let (last, value) = meaning::meaning(o.env, o.world, scope, e)->0;
            &&& arrived(o, after, end, last)
            &&& correctness::gives(end, result, value)
            &&& execution::extends(machine.held, end.held)
        }),
{
    let (after, _) = model::lower(o.env, s, e)->0;
    assert(stability::settled(s) && s.has_all(machine)) by {
        reveal(travels);
    }
    let here = Origin { before: s, start: machine, ..o };
    execution::lemma_runs_refl(o.world, s, machine);
    let end = correctness::lemma_means(here, s, machine, scope, e);
    stability::lemma_kept_refl(s);
    frame::lemma_lower_kept(s, o.env, s, e, 0);
    lemma_travels_straight(o.world, o.before, o.start, s, machine, after, end);
    end
}

/// Agreement carries over to a state in which only hidden variables are bound otherwise.
proof fn lemma_agrees_without(
    s: LowerState,
    machine: Machine,
    scope: Scope,
    after: LowerState,
    end: Machine,
    names: Set<u32>,
)
    requires
        correctness::agrees(s, machine, scope),
        execution::extends(machine.held, end.held),
        end.heap == machine.heap,
        names.disjoint(scope.locals.dom()),
        forall|l: u32| !names.contains(l) ==> #[trigger] stability::same_local(s, after, l),
    ensures
        correctness::agrees(after, end, scope.without(names)),
{
    reveal(correctness::agrees);
    let less = scope.without(names);
    assert forall|l: u32| #[trigger] after.mutable_locals.contains(l) implies less.mutable.contains(
        l,
    ) || less.hidden.contains(l) by {
        if !names.contains(l) {
            assert(stability::same_local(s, after, l));
        }
    }
    assert forall|l: u32| #[trigger] less.locals.contains_key(l) implies after.bindings.contains_key(
        l,
    ) && laws::holds(end, after.bindings[l], less.locals[l]) && after.mutable_locals.contains(l)
        == less.mutable.contains(l) by {
        assert(scope.locals.dom().contains(l));
        assert(!names.contains(l));
        assert(stability::same_local(s, after, l));
    }
    assert(less.hidden.disjoint(less.locals.dom())) by {
        assert forall|l: u32| less.hidden.contains(l) implies !less.locals.dom().contains(l) by {
            if !names.contains(l) {
                assert(scope.hidden.contains(l));
            }
        }
    }
}

/// The code of an `if`, once both branches have been converted and joined.
pub open spec fn if_code(
    s1: LowerState,
    cond: ValueId,
    s3: LowerState,
    s5: LowerState,
    typ: Option<TypeView>,
    then_args: Seq<ValueId>,
    else_args: Seq<ValueId>,
) -> LowerState {
    let merge = s1.add_block().add_block().code.next_block();
    let s6 = match typ {
        Some(typ) => s5.parameter(merge, typ),
        None => s5,
    };
    s6.jump(s3.current, merge, then_args).jump(s5.current, merge, else_args).at(merge)
}

/// The state in which the first branch of an `if` is converted.
pub open spec fn then_state(s1: LowerState, cond: ValueId) -> LowerState {
    s1.add_block().add_block().add_block().branch(
        s1.current,
        cond,
        s1.code.next_block(),
        s1.add_block().code.next_block(),
    ).at(s1.code.next_block())
}

/// How the blocks of an `if` hang together.
#[verifier::spinoff_prover]
proof fn lemma_if_code(
    s1: LowerState,
    cond: ValueId,
    s3: LowerState,
    s5: LowerState,
    typ: Option<TypeView>,
    then_args: Seq<ValueId>,
    else_args: Seq<ValueId>,
)
    requires
        stability::settled(s1),
        stability::kept(then_state(s1, cond), s3),
        stability::kept(s3.at(s1.add_block().code.next_block()), s5),
        is_numbered(if_code(s1, cond, s3, s5, typ, then_args, else_args)),
    ensures
        ({
            let last = if_code(s1, cond, s3, s5, typ, then_args, else_args);
            let s2 = then_state(s1, cond);
            let s4 = s3.at(s1.add_block().code.next_block());
            let first = last.code.blocks[s1.current.0 as int];
            let then_end = last.code.blocks[s3.current.0 as int];
            let else_end = last.code.blocks[s5.current.0 as int];
            let merge = last.code.blocks[last.current.0 as int];
            &&& is_numbered(s3) && is_numbered(s5)
            &&& stability::settled(s2) && stability::settled(s4) && stability::settled(last)
            &&& s2.instructions().len() == 0 && s4.instructions().len() == 0
            &&& s1.code.values == s2.code.values && s2.code.values.is_prefix_of(s3.code.values)
            &&& s3.code.values.is_prefix_of(s5.code.values) && s5.code.values.is_prefix_of(
                last.code.values,
            )
            &&& control::carries(s1.code, last.code) && control::carries(s3.code, last.code)
                && control::carries(s5.code, last.code)
            &&& first.instructions == s1.instructions()
            &&& first.terminator == Some(
                TerminatorView::JmpIf(
                    cond,
                    s1.code.next_block(),
                    s1.add_block().code.next_block(),
                ),
            )
            &&& last.code.has_block(s2.current) && last.code.has_block(s4.current)
            &&& then_end.instructions == s3.instructions() && then_end.terminator == Some(
                TerminatorView::Jmp(last.current, then_args),
            )
            &&& else_end.instructions == s5.instructions() && else_end.terminator == Some(
                TerminatorView::Jmp(last.current, else_args),
            )
            &&& merge.instructions.len() == 0
            &&& match typ {
                Some(typ) => merge.parameters == seq![(s5.next(), typ)] && s5.next().0
                    == s5.code.values.len() && last.code.values.len() == s5.code.values.len() + 1
                    && last.code.values[s5.code.values.len() as int] is Parameter,
                None => true,
            }
            &&& last.bindings == s5.bindings && last.mutable_locals == s5.mutable_locals
        }),
{
    reveal(stability::kept);
    let last = if_code(s1, cond, s3, s5, typ, then_args, else_args);
    let s2 = then_state(s1, cond);
    let otherwise = s1.add_block().code.next_block();
    let merge = s1.add_block().add_block().code.next_block();
    let s4 = s3.at(otherwise);
    assert(s2.code.has_block(s2.current));
    assert(s4.code.has_block(s4.current));
    assert(s5.code.has_block(s5.current));
    assert(last.code.blocks.len() == s5.code.blocks.len());
    assert(stability::settled(s2));
    assert(s3.code.blocks[otherwise.0 as int] == s2.code.blocks[otherwise.0 as int]);
    assert(stability::settled(s4));
    assert(s3.code.blocks[merge.0 as int] == s2.code.blocks[merge.0 as int]);
    assert(s5.code.blocks[merge.0 as int] == s4.code.blocks[merge.0 as int]);
    assert(s5.code.blocks[s3.current.0 as int] == s3.code.blocks[s3.current.0 as int]);
    assert(s3.code.blocks[s1.current.0 as int] == s2.code.blocks[s1.current.0 as int]);
    assert(s5.code.blocks[s1.current.0 as int] == s4.code.blocks[s1.current.0 as int]);
    assert(last.code.blocks[s1.current.0 as int] == s5.code.blocks[s1.current.0 as int]);
    assert forall|b: int| 0 <= b < s1.code.blocks.len() implies control::added_to(
        s1.code.blocks[b],
        #[trigger] last.code.blocks[b],
    ) by {
        assert(s3.code.blocks[b] == s2.code.blocks[b]);
        assert(s5.code.blocks[b] == s4.code.blocks[b]);
    }
    assert forall|b: int| 0 <= b < s5.code.blocks.len() implies control::added_to(
        s5.code.blocks[b],
        #[trigger] last.code.blocks[b],
    ) by {}
    assert forall|b: int| 0 <= b < s3.code.blocks.len() implies control::added_to(
        s3.code.blocks[b],
        #[trigger] last.code.blocks[b],
    ) by {
        assert(control::added_to(s5.code.blocks[b], last.code.blocks[b]));
        if b != otherwise.0 {
            assert(s5.code.blocks[b] == s4.code.blocks[b]);
        } else {
            let x = s3.code.blocks[b].instructions;
            assert(x.len() == 0);
        }
    }
    match typ {
        Some(typ) => {
            assert(last.code.blocks[merge.0 as int].parameters =~= seq![(s5.next(), typ)]);
        },
        None => {},
    }
}

/// Whether a value holds something from the start.
pub open spec fn loaded_contains(
    s: LowerState,
    machine: Machine,
    last: LowerState,
    value: ValueId,
) -> bool {
    execution::loaded(s, machine, last).held.contains_key(value)
}

/// Control takes a branch, and gets to where the branches meet.
#[verifier::spinoff_prover]
proof fn lemma_branch(
    world: World,
    before: LowerState,
    start: Machine,
    s: LowerState,
    machine: Machine,
    from: LowerState,
    first: Machine,
    to: LowerState,
    second: Machine,
    last: LowerState,
    args: Seq<ValueId>,
) -> (end: Machine)
    requires
        travels(world, before, start, s, machine),
        travels(world, from, first, to, second),
        from.instructions().len() == 0,
        execution::extends(machine.held, first.held),
        control::carries(s.code, last.code),
        s.code.values.is_prefix_of(last.code.values),
        control::carries(to.code, last.code),
        to.code.values.is_prefix_of(last.code.values),
        execution::loaded(from, first, last) == execution::loaded(s, machine, last),
        control::advance(world, last.code, end_of(s, execution::loaded(s, machine, last))) == Some(
            end_of(from, execution::loaded(s, machine, last)),
        ),
        last.code.blocks[to.current.0 as int].instructions == to.instructions(),
        last.code.blocks[to.current.0 as int].terminator == Some(
            TerminatorView::Jmp(last.current, args),
        ),
        stability::settled(last),
        last.instructions().len() == 0,
        args.len() <= 1,
        semantics::all_held(second.held, args),
        args.len() == 1 ==> {
            let parameters = last.code.blocks[last.current.0 as int].parameters;
            &&& parameters.len() == 1
            &&& last.code.has_value(parameters[0].0)
            &&& !loaded_contains(to, second, last, parameters[0].0)
        },
    ensures
        travels(world, before, start, last, end),
        execution::extends(second.held, end.held),
        execution::extends(machine.held, end.held),
        end.heap == second.heap,
        args.len() == 1 ==> laws::holds(
            end,
            last.code.blocks[last.current.0 as int].parameters[0].0,
            second.held[args[0]],
        ),
{
    lemma_carry(world, before, start, s, machine, last);
    lemma_carry(world, from, first, to, second, last);
    let begun = end_of(before, execution::loaded(before, start, last));
    let forked = end_of(s, execution::loaded(s, machine, last));
    let inside = end_of(from, execution::loaded(from, first, last));
    let loaded = execution::loaded(to, second, last);
    let done = end_of(to, loaded);
    control::lemma_reaches_advance(world, last.code, begun, forked, inside);
    control::lemma_reaches_trans(world, last.code, begun, inside, done);
    let parameters = last.code.blocks[last.current.0 as int].parameters;
    let data = semantics::operand_data(loaded.held, args);
    assert(semantics::all_held(loaded.held, args));
    let end = Machine { held: control::bound(loaded.held, parameters, data, args.len()), ..loaded };
    reveal_with_fuel(control::bound, 2);
    reveal(travels);
    lemma_loaded_extends(before, start, s, machine, last);
    lemma_loaded_extends(from, first, to, second, last);
    assert(last.code.has_block(to.current));
    assert(control::advance(world, last.code, done) == Some(end_of(last, end)));
    control::lemma_reaches_advance(world, last.code, begun, done, end_of(last, end));
    assert(before.code.values.is_prefix_of(last.code.values)) by {
        assert forall|i: int| 0 <= i < before.code.values.len() implies last.code.values[i]
            == before.code.values[i] by {
            assert(s.code.values[i] == before.code.values[i]);
        }
    }
    end
}

/// An expression.
proof fn lemma_fate(
    o: Origin,
    rounds: nat,
    s: LowerState,
    machine: Machine,
    scope: Scope,
    e: Expression,
) -> (end: Machine)
    requires
        arrived(o, s, machine, scope),
        fate::fate(o.env, o.world, rounds, scope, e) is Some,
        model::lower(o.env, s, e) matches Some((after, _)) && is_numbered(after),
    ensures
        ({
            let (after, result) = model::lower(o.env, s, e)->0;
            let (last, value) = fate::fate(o.env, o.world, rounds, scope, e)->0;
            &&& arrived(o, after, end, last)
            &&& correctness::gives(end, result, value)
            &&& execution::extends(machine.held, end.held)
        }),
    decreases e, 1nat,
{
    if meaning::meaning(o.env, o.world, scope, e) is Some {
        lemma_straight(o, s, machine, scope, e)
    } else {
        match e.kind {
            ExpressionKind::Semi(inner) => lemma_fate(o, rounds, s, machine, scope, *inner),
            ExpressionKind::Block(exprs) => {
                lemma_fate_block(o, rounds, s, machine, scope, exprs@, exprs@.len())
            },
            ExpressionKind::Let(binding) => lemma_fate_let(o, rounds, s, machine, scope, binding),
            ExpressionKind::If(if_expr) => lemma_fate_if(o, rounds, s, machine, scope, if_expr),
            ExpressionKind::For(for_expr) => lemma_fate_for(o, rounds, s, machine, scope, for_expr),
            ExpressionKind::While(while_expr) => {
                lemma_fate_while(o, rounds, s, machine, scope, while_expr)
            },
            ExpressionKind::Loop(body) => lemma_fate_loop(o, rounds, s, machine, scope, *body),
            _ => machine,
        }
    }
}

/// A block.
proof fn lemma_fate_block(
    o: Origin,
    rounds: nat,
    s: LowerState,
    machine: Machine,
    scope: Scope,
    exprs: Seq<Expression>,
    n: nat,
) -> (end: Machine)
    requires
        arrived(o, s, machine, scope),
        fate::block_fate(o.env, o.world, rounds, scope, exprs, n) is Some,
        model::lower_block(o.env, s, exprs, n) matches Some((after, _)) && is_numbered(after),
    ensures
        ({
            let (after, result) = model::lower_block(o.env, s, exprs, n)->0;
            let (last, value) = fate::block_fate(o.env, o.world, rounds, scope, exprs, n)->0;
            &&& arrived(o, after, end, last)
            &&& correctness::gives(end, result, value)
            &&& execution::extends(machine.held, end.held)
        }),
    decreases exprs, n,
{
    if n == 0 {
        machine
    } else {
        let m = (n - 1) as nat;
        let (s1, _) = model::lower_block(o.env, s, exprs, m)->0;
        let (scope1, _) = fate::block_fate(o.env, o.world, rounds, scope, exprs, m)->0;
        assert(stability::settled(s)) by {
            reveal(travels);
        }
        stability::lemma_kept_refl(s);
        frame::lemma_block_kept(s, o.env, s, exprs, m, 0);
        lemma_block_numbered(o.env, s, exprs, n);
        let middle = lemma_fate_block(o, rounds, s, machine, scope, exprs, m);
        lemma_fate(o, rounds, s1, middle, scope1, exprs[n - 1])
    }
}

/// The first part of a block that is numbered is numbered.
proof fn lemma_block_numbered(env: LowerEnv, s: LowerState, exprs: Seq<Expression>, n: nat)
    requires
        stability::settled(s),
        0 < n <= exprs.len(),
        model::lower_block(env, s, exprs, n) matches Some((after, _)) && is_numbered(after),
    ensures
        model::lower_block(env, s, exprs, (n - 1) as nat) matches Some((s1, _)) && is_numbered(s1),
{
    let (s1, _) = model::lower_block(env, s, exprs, (n - 1) as nat)->0;
    stability::lemma_kept_refl(s);
    frame::lemma_block_kept(s, env, s, exprs, (n - 1) as nat, 0);
    frame::lemma_has_block(s, s1);
    stability::lemma_kept_refl(s1);
    frame::lemma_lower_kept(s1, env, s1, exprs[n - 1], 0);
    frame::lemma_has_block(s1, (model::lower(env, s1, exprs[n - 1])->0).0);
}

/// A variable bound.
proof fn lemma_fate_let(
    o: Origin,
    rounds: nat,
    s: LowerState,
    machine: Machine,
    scope: Scope,
    binding: Let,
) -> (end: Machine)
    requires
        arrived(o, s, machine, scope),
        fate::let_fate(o.env, o.world, rounds, scope, binding) is Some,
        model::lower_let(o.env, s, binding) matches Some((after, _)) && is_numbered(after),
    ensures
        ({
            let (after, result) = model::lower_let(o.env, s, binding)->0;
            let (last, value) = fate::let_fate(o.env, o.world, rounds, scope, binding)->0;
            &&& arrived(o, after, end, last)
            &&& correctness::gives(end, result, value)
            &&& execution::extends(machine.held, end.held)
        }),
    decreases binding, 0nat,
{
    let (s1, result) = model::lower(o.env, s, *binding.expression)->0;
    let (scope1, value) = fate::fate(o.env, o.world, rounds, scope, *binding.expression)->0;
    let middle = lemma_fate(o, rounds, s, machine, scope, *binding.expression);
    let (after, _) = model::lower_let(o.env, s, binding)->0;
    assert(stability::settled(s1) && s1.has_all(middle)) by {
        reveal(travels);
    }
    let here = Origin { before: s1, start: middle, ..o };
    execution::lemma_runs_refl(o.world, s1, middle);
    let end = correctness::lemma_let_bound(here, s1, middle, scope1, binding, result, value);
    stability::lemma_kept_refl(s1);
    lemma_let_kept(s1, binding, result);
    lemma_travels_straight(o.world, o.before, o.start, s1, middle, after, end);
    end
}

/// What binding a variable leaves alone.
proof fn lemma_let_kept(s: LowerState, binding: Let, result: Option<ValueId>)
    ensures
        model::let_bound(s, binding, result) matches Some(after) ==> stability::kept(s, after),
{
    broadcast use {
        stability::lemma_kept_emit,
        stability::lemma_kept_bind,
        stability::lemma_kept_bind_mut,
    };

    stability::lemma_kept_refl(s);
}

/// An `if`.
#[verifier::spinoff_prover]
proof fn lemma_fate_if(
    o: Origin,
    rounds: nat,
    s: LowerState,
    machine: Machine,
    scope: Scope,
    if_expr: If,
) -> (end: Machine)
    requires
        arrived(o, s, machine, scope),
        fate::if_fate(o.env, o.world, rounds, scope, if_expr) is Some,
        model::lower_if(o.env, s, if_expr) matches Some((after, _)) && is_numbered(after),
    ensures
        ({
            let (after, result) = model::lower_if(o.env, s, if_expr)->0;
            let (last, value) = fate::if_fate(o.env, o.world, rounds, scope, if_expr)->0;
            &&& arrived(o, after, end, last)
            &&& correctness::gives(end, result, value)
            &&& execution::extends(machine.held, end.held)
        }),
    decreases if_expr, 1nat,
{
    laws::law_decided_conditions_have_that_truth_value(
        o.env,
        o.world,
        scope,
        *if_expr.condition,
    );
    match model::const_bool(o.env, *if_expr.condition) {
        Some(true) => lemma_fate(o, rounds, s, machine, scope, *if_expr.consequence),
        Some(false) => match if_expr.alternative {
            Some(alternative) => lemma_fate(o, rounds, s, machine, scope, *alternative),
            None => machine,
        },
        None => lemma_fate_branches(o, rounds, s, machine, scope, if_expr),
    }
}

/// An `if` whose condition is not known.
#[verifier::spinoff_prover]
proof fn lemma_fate_branches(
    o: Origin,
    rounds: nat,
    s: LowerState,
    machine: Machine,
    scope: Scope,
    if_expr: If,
) -> (end: Machine)
    requires
        arrived(o, s, machine, scope),
        model::const_bool(o.env, *if_expr.condition) is None,
        !meaning::is_known(*if_expr.condition),
        fate::if_fate(o.env, o.world, rounds, scope, if_expr) is Some,
        model::lower_if(o.env, s, if_expr) matches Some((after, _)) && is_numbered(after),
    ensures
        ({
            let (after, result) = model::lower_if(o.env, s, if_expr)->0;
            let (last, value) = fate::if_fate(o.env, o.world, rounds, scope, if_expr)->0;
            &&& arrived(o, after, end, last)
            &&& correctness::gives(end, result, value)
            &&& execution::extends(machine.held, end.held)
        }),
    decreases if_expr, 0nat,
{
    let (last, _) = model::lower_if(o.env, s, if_expr)->0;
    let (s1, cond) = model::lower_value(o.env, s, *if_expr.condition)->0;
    let (scope1, data) = meaning::value_meaning(o.env, o.world, scope, *if_expr.condition)->0;
    let s2 = then_state(s1, cond);
    let (s3, then_result) = model::lower(o.env, s2, *if_expr.consequence)->0;
    let s4 = s3.at(s1.add_block().code.next_block());
    let (s5, else_result) = match if_expr.alternative {
        Some(alternative) => model::lower(o.env, s4, *alternative)->0,
        None => (s4, None),
    };
    let typ = if if_expr.typ is Unit {
        None
    } else {
        Some(type_converter::ssa_type(if_expr.typ))
    };
    let then_args = if if_expr.typ is Unit {
        seq![]
    } else {
        seq![then_result->0]
    };
    let else_args = if if_expr.typ is Unit {
        seq![]
    } else {
        seq![else_result->0]
    };
    assert(last == if_code(s1, cond, s3, s5, typ, then_args, else_args));
    // The blocks.
    assert(stability::settled(s)) by {
        reveal(travels);
    }
    stability::lemma_kept_refl(s);
    stability::lemma_kept_refl(s2);
    stability::lemma_kept_refl(s4);
    frame::lemma_value_kept(s, o.env, s, *if_expr.condition, 0);
    frame::lemma_has_block(s, s1);
    frame::lemma_lower_kept(s2, o.env, s2, *if_expr.consequence, 0);
    frame::lemma_has_block(s2, s3);
    if let Some(alternative) = if_expr.alternative {
        frame::lemma_lower_kept(s4, o.env, s4, *alternative, 0);
    }
    frame::lemma_has_block(s4, s5);
    lemma_kept_carries(s, s1);
    lemma_if_code(s1, cond, s3, s5, typ, then_args, else_args);
    // The condition.
    let forked = lemma_straight(o, s, machine, scope, *if_expr.condition);
    let loaded = execution::loaded(s1, forked, last);
    assert(s1.has_all(forked)) by {
        reveal(travels);
    }
    assert(loaded.held.contains_key(cond) && loaded.held[cond] == data);
    if data == semantics::truth(true) {
        let here = Origin { before: s2, start: forked, ..o };
        lemma_travels_refl(o.world, s2, forked);
        assert(correctness::agrees(s2, forked, scope1)) by {
            reveal(correctness::agrees);
        }
        let (scope3, value) = fate::fate(o.env, o.world, rounds, scope1, *if_expr.consequence)->0;
        let taken = lemma_fate(here, rounds, s2, forked, scope1, *if_expr.consequence);
        assert(execution::loaded(s2, forked, last) =~= loaded);
        assert(s3.has_all(taken)) by {
            reveal(travels);
        }
        let end = lemma_branch(
            o.world,
            o.before,
            o.start,
            s1,
            forked,
            s2,
            forked,
            s3,
            taken,
            last,
            then_args,
        );
        assert forall|l: u32| !fate::bound_otherwise(if_expr).contains(l) implies #[trigger]
            stability::same_local(s3, last, l) by {
            if let Some(alternative) = if_expr.alternative {
                frame::lemma_lower_kept(s4, o.env, s4, *alternative, l);
            }
        }
        lemma_agrees_heaps(s3, taken, scope3);
        lemma_agrees_without(s3, taken, scope3, last, end, fate::bound_otherwise(if_expr));
        end
    } else {
        let first = execution::loaded(s1, forked, s4);
        lemma_loaded(s1, forked, s4, last);
        let here = Origin { before: s4, start: first, ..o };
        let inside = scope1.without(fate::bound_in(*if_expr.consequence));
        assert(s4.has_all(first)) by {
            assert forall|v: ValueId| #[trigger] first.held.contains_key(v) implies s4.code.has_value(
                v,
            ) by {
                assert(forked.held.contains_key(v) || execution::added_data(s1, s4, v) is Some);
            }
        }
        lemma_travels_refl(o.world, s4, first);
        assert forall|l: u32| !fate::bound_in(*if_expr.consequence).contains(l) implies #[trigger]
            stability::same_local(s1, s4, l) by {
            frame::lemma_lower_kept(s2, o.env, s2, *if_expr.consequence, l);
            assert(stability::same_local(s2, s3, l));
        }
        lemma_agrees_without(
            s1,
            forked,
            scope1,
            s4,
            first,
            fate::bound_in(*if_expr.consequence),
        );
        let (scope5, value, taken) = match if_expr.alternative {
            Some(alternative) => {
                let (scope5, value) = fate::fate(o.env, o.world, rounds, inside, *alternative)->0;
                let taken = lemma_fate(here, rounds, s4, first, inside, *alternative);
                (scope5, value, taken)
            },
            None => (inside, None, first),
        };
        assert(s5.has_all(taken)) by {
            reveal(travels);
        }
        let end = lemma_branch(
            o.world,
            o.before,
            o.start,
            s1,
            forked,
            s4,
            first,
            s5,
            taken,
            last,
            else_args,
        );
        lemma_agrees_heaps(s5, taken, scope5);
        lemma_agrees_without(s5, taken, scope5, last, end, Set::empty());
        assert(scope5.without(Set::empty()) =~= scope5);
        end
    }
}

proof fn lemma_agrees_heaps(s: LowerState, machine: Machine, scope: Scope)
    requires
        correctness::agrees(s, machine, scope),
    ensures
        machine.heap == scope.heap,
{
    reveal(correctness::agrees);
}

/// Control takes a branch, and gets on from there.
proof fn lemma_enter(
    world: World,
    before: LowerState,
    start: Machine,
    s: LowerState,
    machine: Machine,
    from: LowerState,
    first: Machine,
    to: LowerState,
    second: Machine,
)
    requires
        travels(world, before, start, s, machine),
        travels(world, from, first, to, second),
        execution::extends(machine.held, first.held),
        control::carries(s.code, to.code),
        s.code.values.is_prefix_of(to.code.values),
        execution::loaded(from, first, to) == execution::loaded(s, machine, to),
        control::advance(world, to.code, end_of(s, execution::loaded(s, machine, to))) == Some(
            end_of(from, execution::loaded(s, machine, to)),
        ),
    ensures
        travels(world, before, start, to, second),
{
    lemma_carry(world, before, start, s, machine, to);
    reveal(travels);
    let begun = end_of(before, execution::loaded(before, start, to));
    let forked = end_of(s, execution::loaded(s, machine, to));
    let inside = end_of(from, execution::loaded(from, first, to));
    control::lemma_reaches_advance(world, to.code, begun, forked, inside);
    control::lemma_reaches_trans(world, to.code, begun, inside, end_of(to, second));
    lemma_loaded_extends(before, start, s, machine, to);
    assert(before.code.values.is_prefix_of(to.code.values)) by {
        assert forall|i: int| 0 <= i < before.code.values.len() implies to.code.values[i]
            == before.code.values[i] by {
            assert(s.code.values[i] == before.code.values[i]);
        }
    }
}

/// Code that has been added to twice.
proof fn lemma_carries_trans(a: Code, b: Code, c: Code)
    requires
        control::carries(a, b),
        control::carries(b, c),
    ensures
        control::carries(a, c),
{
    assert forall|i: int| 0 <= i < a.blocks.len() implies control::added_to(
        a.blocks[i],
        #[trigger] c.blocks[i],
    ) by {
        assert(control::added_to(a.blocks[i], b.blocks[i]));
        assert(control::added_to(b.blocks[i], c.blocks[i]));
        let x = a.blocks[i];
        let y = b.blocks[i];
        let z = c.blocks[i];
        assert forall|k: int| 0 <= k < x.instructions.len() implies z.instructions[k]
            == x.instructions[k] by {
            assert(y.instructions[k] == x.instructions[k]);
        }
        assert forall|k: int| 0 <= k < x.parameters.len() implies z.parameters[k]
            == x.parameters[k] by {
            assert(y.parameters[k] == x.parameters[k]);
        }
    }
}

proof fn lemma_prefix_trans(a: Seq<ValueDefView>, b: Seq<ValueDefView>, c: Seq<ValueDefView>)
    requires
        a.is_prefix_of(b),
        b.is_prefix_of(c),
    ensures
        a.is_prefix_of(c),
{
    assert forall|i: int| 0 <= i < a.len() implies c[i] == a[i] by {
        assert(b[i] == a[i]);
    }
}

/// The current block ended as a round is left.
pub open spec fn left_by(c: LowerState, leave: Leave, context: LoopContext) -> LowerState {
    match leave {
        Leave::Break => c.jump(c.current, context.exit_block, seq![]),
        Leave::Continue => c.next_round(context),
    }
}

/// Control has got to where a round is left, and the code there does so.
pub open spec fn has_left(
    o: Origin,
    s: LowerState,
    machine: Machine,
    after: LowerState,
    scope: Scope,
    leave: Leave,
    site: LowerState,
    end: Machine,
) -> bool {
    let ended = left_by(site, leave, s.loops.last());
    &&& travels(o.world, o.before, o.start, site, end)
    &&& end.heap == scope.heap
    &&& execution::extends(machine.held, end.held)
    &&& control::carries(s.code, site.code)
    &&& s.code.values.is_prefix_of(site.code.values)
    &&& control::carries(ended.code, after.code)
    &&& ended.code.values.is_prefix_of(after.code.values)
}

/// Where a round has been left, code that is added makes no difference.
proof fn lemma_has_left_still(
    o: Origin,
    s: LowerState,
    machine: Machine,
    after: LowerState,
    scope: Scope,
    leave: Leave,
    site: LowerState,
    end: Machine,
    last: LowerState,
)
    requires
        has_left(o, s, machine, after, scope, leave, site, end),
        control::carries(after.code, last.code),
        after.code.values.is_prefix_of(last.code.values),
    ensures
        has_left(o, s, machine, last, scope, leave, site, end),
{
    let ended = left_by(site, leave, s.loops.last());
    lemma_carries_trans(ended.code, after.code, last.code);
    lemma_prefix_trans(ended.code.values, after.code.values, last.code.values);
}

/// An expression that leaves the round.
#[verifier::spinoff_prover]
proof fn lemma_leaves(
    o: Origin,
    rounds: nat,
    s: LowerState,
    machine: Machine,
    scope: Scope,
    e: Expression,
) -> (left: (LowerState, Machine))
    requires
        arrived(o, s, machine, scope),
        s.loops.len() > 0,
        fate::leaves(o.env, o.world, rounds, scope, e) is Some,
        model::lower(o.env, s, e) matches Some((after, _)) && is_numbered(after),
    ensures
        ({
            let (after, _) = model::lower(o.env, s, e)->0;
            let (last, leave) = fate::leaves(o.env, o.world, rounds, scope, e)->0;
            has_left(o, s, machine, after, last, leave, left.0, left.1)
        }),
    decreases e, 1nat,
{
    lemma_agrees_heaps(s, machine, scope);
    assert(stability::settled(s)) by {
        reveal(travels);
    }
    match e.kind {
        ExpressionKind::Semi(inner) => lemma_leaves(o, rounds, s, machine, scope, *inner),
        ExpressionKind::Block(exprs) => {
            lemma_leaves_block(o, rounds, s, machine, scope, exprs@, exprs@.len())
        },
        ExpressionKind::If(if_expr) => lemma_leaves_if(o, rounds, s, machine, scope, if_expr),
        ExpressionKind::Break => {
            lemma_site(s, Leave::Break);
            (s, machine)
        },
        _ => {
            lemma_site(s, Leave::Continue);
            (s, machine)
        },
    }
}

/// The block after the one that has been left.
proof fn lemma_site(s: LowerState, leave: Leave)
    requires
        stability::settled(s),
    ensures
        ({
            let ended = left_by(s, leave, s.loops.last());
            let after = ended.into_dead_block();
            &&& control::carries(s.code, s.code)
            &&& control::carries(ended.code, after.code)
            &&& ended.code.values.is_prefix_of(after.code.values)
        }),
{
    let ended = left_by(s, leave, s.loops.last());
    let after = ended.into_dead_block();
    assert forall|b: int| 0 <= b < ended.code.blocks.len() implies control::added_to(
        ended.code.blocks[b],
        #[trigger] after.code.blocks[b],
    ) by {}
    assert forall|b: int| 0 <= b < s.code.blocks.len() implies control::added_to(
        s.code.blocks[b],
        #[trigger] s.code.blocks[b],
    ) by {}
}

/// A block that leaves the round.
#[verifier::spinoff_prover]
proof fn lemma_leaves_block(
    o: Origin,
    rounds: nat,
    s: LowerState,
    machine: Machine,
    scope: Scope,
    exprs: Seq<Expression>,
    n: nat,
) -> (left: (LowerState, Machine))
    requires
        arrived(o, s, machine, scope),
        s.loops.len() > 0,
        fate::block_leaves(o.env, o.world, rounds, scope, exprs, n) is Some,
        model::lower_block(o.env, s, exprs, n) matches Some((after, _)) && is_numbered(after),
    ensures
        ({
            let (after, _) = model::lower_block(o.env, s, exprs, n)->0;
            let (last, leave) = fate::block_leaves(o.env, o.world, rounds, scope, exprs, n)->0;
            has_left(o, s, machine, after, last, leave, left.0, left.1)
        }),
    decreases exprs, n,
{
    let m = (n - 1) as nat;
    let (s1, _) = model::lower_block(o.env, s, exprs, m)->0;
    let (after, _) = model::lower_block(o.env, s, exprs, n)->0;
    assert(stability::settled(s)) by {
        reveal(travels);
    }
    lemma_block_numbered(o.env, s, exprs, n);
    stability::lemma_kept_refl(s);
    frame::lemma_block_kept(s, o.env, s, exprs, m, 0);
    frame::lemma_has_block(s, s1);
    lemma_kept_carries(s, s1);
    stability::lemma_kept_refl(s1);
    frame::lemma_lower_kept(s1, o.env, s1, exprs[n - 1], 0);
    lemma_kept_carries(s1, after);
    match fate::block_leaves(o.env, o.world, rounds, scope, exprs, m) {
        Some((last, leave)) => {
            let left = lemma_leaves_block(o, rounds, s, machine, scope, exprs, m);
            lemma_has_left_still(o, s, machine, s1, last, leave, left.0, left.1, after);
            left
        },
        None => {
            let (scope1, _) = fate::block_fate(o.env, o.world, rounds, scope, exprs, m)->0;
            let middle = lemma_fate_block(o, rounds, s, machine, scope, exprs, m);
            let left = lemma_leaves(o, rounds, s1, middle, scope1, exprs[n - 1]);
            lemma_carries_trans(s.code, s1.code, left.0.code);
            lemma_prefix_trans(s.code.values, s1.code.values, left.0.code.values);
            left
        },
    }
}

/// An `if` that leaves the round.
#[verifier::spinoff_prover]
proof fn lemma_leaves_if(
    o: Origin,
    rounds: nat,
    s: LowerState,
    machine: Machine,
    scope: Scope,
    if_expr: If,
) -> (left: (LowerState, Machine))
    requires
        arrived(o, s, machine, scope),
        s.loops.len() > 0,
        fate::if_leaves(o.env, o.world, rounds, scope, if_expr) is Some,
        model::lower_if(o.env, s, if_expr) matches Some((after, _)) && is_numbered(after),
    ensures
        ({
            let (after, _) = model::lower_if(o.env, s, if_expr)->0;
            let (last, leave) = fate::if_leaves(o.env, o.world, rounds, scope, if_expr)->0;
            has_left(o, s, machine, after, last, leave, left.0, left.1)
        }),
    decreases if_expr, 1nat,
{
    laws::law_decided_conditions_have_that_truth_value(
        o.env,
        o.world,
        scope,
        *if_expr.condition,
    );
    match model::const_bool(o.env, *if_expr.condition) {
        Some(true) => lemma_leaves(o, rounds, s, machine, scope, *if_expr.consequence),
        Some(false) => lemma_leaves(o, rounds, s, machine, scope, *if_expr.alternative->0),
        None => lemma_leaves_branches(o, rounds, s, machine, scope, if_expr),
    }
}

/// An `if` whose condition is not known, and of which the branch that is taken leaves the round.
#[verifier::spinoff_prover]
proof fn lemma_leaves_branches(
    o: Origin,
    rounds: nat,
    s: LowerState,
    machine: Machine,
    scope: Scope,
    if_expr: If,
) -> (left: (LowerState, Machine))
    requires
        arrived(o, s, machine, scope),
        s.loops.len() > 0,
        model::const_bool(o.env, *if_expr.condition) is None,
        !meaning::is_known(*if_expr.condition),
        fate::if_leaves(o.env, o.world, rounds, scope, if_expr) is Some,
        model::lower_if(o.env, s, if_expr) matches Some((after, _)) && is_numbered(after),
    ensures
        ({
            let (after, _) = model::lower_if(o.env, s, if_expr)->0;
            let (last, leave) = fate::if_leaves(o.env, o.world, rounds, scope, if_expr)->0;
            has_left(o, s, machine, after, last, leave, left.0, left.1)
        }),
    decreases if_expr, 0nat,
{
    let (last, _) = model::lower_if(o.env, s, if_expr)->0;
    let (s1, cond) = model::lower_value(o.env, s, *if_expr.condition)->0;
    let (scope1, data) = meaning::value_meaning(o.env, o.world, scope, *if_expr.condition)->0;
    let s2 = then_state(s1, cond);
    let (s3, then_result) = model::lower(o.env, s2, *if_expr.consequence)->0;
    let s4 = s3.at(s1.add_block().code.next_block());
    let (s5, else_result) = match if_expr.alternative {
        Some(alternative) => model::lower(o.env, s4, *alternative)->0,
        None => (s4, None),
    };
    let typ = if if_expr.typ is Unit {
        None
    } else {
        Some(type_converter::ssa_type(if_expr.typ))
    };
    let then_args = if if_expr.typ is Unit {
        seq![]
    } else {
        seq![then_result->0]
    };
    let else_args = if if_expr.typ is Unit {
        seq![]
    } else {
        seq![else_result->0]
    };
    assert(last == if_code(s1, cond, s3, s5, typ, then_args, else_args));
    // The blocks.
    assert(stability::settled(s)) by {
        reveal(travels);
    }
    stability::lemma_kept_refl(s);
    stability::lemma_kept_refl(s2);
    stability::lemma_kept_refl(s4);
    frame::lemma_value_kept(s, o.env, s, *if_expr.condition, 0);
    frame::lemma_has_block(s, s1);
    frame::lemma_lower_kept(s2, o.env, s2, *if_expr.consequence, 0);
    frame::lemma_has_block(s2, s3);
    if let Some(alternative) = if_expr.alternative {
        frame::lemma_lower_kept(s4, o.env, s4, *alternative, 0);
    }
    frame::lemma_has_block(s4, s5);
    lemma_kept_carries(s, s1);
    lemma_if_code(s1, cond, s3, s5, typ, then_args, else_args);
    // The condition.
    let forked = lemma_straight(o, s, machine, scope, *if_expr.condition);
    let loaded = execution::loaded(s1, forked, last);
    assert(s1.has_all(forked)) by {
        reveal(travels);
    }
    assert(loaded.held.contains_key(cond) && loaded.held[cond] == data);
    let (gone, leave) = fate::if_leaves(o.env, o.world, rounds, scope, if_expr)->0;
    lemma_kept_carries(s2, s3);
    assert(control::carries(s1.code, s2.code)) by {
        assert forall|b: int| 0 <= b < s1.code.blocks.len() implies control::added_to(
            s1.code.blocks[b],
            #[trigger] s2.code.blocks[b],
        ) by {}
    }
    lemma_carries_trans(s.code, s1.code, s2.code);
    if data == semantics::truth(true) {
        let here = Origin { before: s2, start: forked, ..o };
        lemma_travels_refl(o.world, s2, forked);
        assert(correctness::agrees(s2, forked, scope1)) by {
            reveal(correctness::agrees);
        }
        let left = lemma_leaves(here, rounds, s2, forked, scope1, *if_expr.consequence);
        let site = left.0;
        lemma_has_left_still(here, s2, forked, s3, gone, leave, site, left.1, last);
        lemma_carries_trans(s1.code, s2.code, site.code);
        lemma_carries_trans(s.code, s2.code, site.code);
        lemma_prefix_trans(s.code.values, s2.code.values, site.code.values);
        let there = execution::loaded(s1, forked, site);
        assert(execution::loaded(s2, forked, site) =~= there);
        let b = s1.current.0 as int;
        assert(control::added_to(s2.code.blocks[b], site.code.blocks[b]));
        assert(control::advance(o.world, site.code, end_of(s1, there)) == Some(end_of(s2, there)));
        lemma_enter(o.world, o.before, o.start, s1, forked, s2, forked, site, left.1);
        left
    } else {
        let alternative = *if_expr.alternative->0;
        let first = execution::loaded(s1, forked, s4);
        let here = Origin { before: s4, start: first, ..o };
        let inside = scope1.without(fate::bound_in(*if_expr.consequence));
        assert(s4.has_all(first)) by {
            assert forall|v: ValueId| #[trigger] first.held.contains_key(v) implies s4.code.has_value(
                v,
            ) by {
                assert(forked.held.contains_key(v) || execution::added_data(s1, s4, v) is Some);
            }
        }
        lemma_travels_refl(o.world, s4, first);
        assert forall|l: u32| !fate::bound_in(*if_expr.consequence).contains(l) implies #[trigger]
            stability::same_local(s1, s4, l) by {
            frame::lemma_lower_kept(s2, o.env, s2, *if_expr.consequence, l);
            assert(stability::same_local(s2, s3, l));
        }
        lemma_agrees_without(
            s1,
            forked,
            scope1,
            s4,
            first,
            fate::bound_in(*if_expr.consequence),
        );
        let left = lemma_leaves(here, rounds, s4, first, inside, alternative);
        let site = left.0;
        lemma_has_left_still(here, s4, first, s5, gone, leave, site, left.1, last);
        lemma_carries_trans(s2.code, s3.code, site.code);
        lemma_carries_trans(s1.code, s2.code, site.code);
        lemma_carries_trans(s.code, s2.code, site.code);
        lemma_prefix_trans(s2.code.values, s3.code.values, site.code.values);
        lemma_prefix_trans(s.code.values, s2.code.values, site.code.values);
        lemma_loaded(s1, forked, s4, site);
        let there = execution::loaded(s1, forked, site);
        let b = s1.current.0 as int;
        assert(control::added_to(s2.code.blocks[b], site.code.blocks[b]));
        assert(control::advance(o.world, site.code, end_of(s1, there)) == Some(end_of(s4, there)));
        lemma_enter(o.world, o.before, o.start, s1, forked, s4, first, site, left.1);
        left
    }
}

/// A round of a loop, to its end or to where it is left.
#[verifier::spinoff_prover]
proof fn lemma_round(
    o: Origin,
    rounds: nat,
    s: LowerState,
    machine: Machine,
    scope: Scope,
    body: Expression,
    last: LowerState,
) -> (left: (LowerState, Machine))
    requires
        arrived(o, s, machine, scope),
        s.loops.len() > 0,
        fate::round(o.env, o.world, rounds, scope, body) is Some,
        model::lower(o.env, s, body) matches Some((done, _)) && is_numbered(done),
        ({
            let done = (model::lower(o.env, s, body)->0).0;
            let closed = done.next_round(s.loops.last());
            &&& control::carries(closed.code, last.code)
            &&& closed.code.values.is_prefix_of(last.code.values)
        }),
    ensures
        ({
            let (heap, goes_on) = fate::round(o.env, o.world, rounds, scope, body)->0;
            let leave = if goes_on {
                Leave::Continue
            } else {
                Leave::Break
            };
            let ended = left_by(left.0, leave, s.loops.last());
            &&& travels(o.world, o.before, o.start, left.0, left.1)
            &&& left.1.heap == heap
            &&& execution::extends(machine.held, left.1.held)
            &&& s.code.values.is_prefix_of(left.0.code.values)
            &&& control::carries(ended.code, last.code)
            &&& ended.code.values.is_prefix_of(last.code.values)
        }),
    decreases body, 3nat,
{
    let (done, _) = model::lower(o.env, s, body)->0;
    match fate::fate(o.env, o.world, rounds, scope, body) {
        Some((after, _)) => {
            let end = lemma_fate(o, rounds, s, machine, scope, body);
            lemma_agrees_heaps(done, end, after);
            assert(s.code.values.is_prefix_of(done.code.values)) by {
                lemma_body_carries(o, s, machine, body);
            }
            (done, end)
        },
        None => lemma_round_left(o, rounds, s, machine, scope, body, last),
    }
}

/// The code of a body adds to what was there.
proof fn lemma_body_carries(o: Origin, s: LowerState, machine: Machine, body: Expression)
    requires
        travels(o.world, o.before, o.start, s, machine),
        model::lower(o.env, s, body) matches Some((done, _)) && is_numbered(done),
    ensures
        model::lower(o.env, s, body) matches Some((done, _)) && stability::settled(done)
            && s.code.values.is_prefix_of(done.code.values),
{
    assert(stability::settled(s)) by {
        reveal(travels);
    }
    stability::lemma_kept_refl(s);
    frame::lemma_lower_kept(s, o.env, s, body, 0);
    lemma_kept_carries(s, (model::lower(o.env, s, body)->0).0);
}

/// A block that has been ended, by the step to the next round.
proof fn lemma_closed_carries(done: LowerState, context: LoopContext, last: LowerState)
    requires
        stability::settled(done),
        control::carries(done.next_round(context).code, last.code),
        done.next_round(context).code.values.is_prefix_of(last.code.values),
    ensures
        control::carries(done.code, last.code),
        done.code.values.is_prefix_of(last.code.values),
{
    lemma_site_carried(done, true, context, last);
}

/// A round of a loop that is left before its end.
#[verifier::spinoff_prover]
proof fn lemma_round_left(
    o: Origin,
    rounds: nat,
    s: LowerState,
    machine: Machine,
    scope: Scope,
    body: Expression,
    last: LowerState,
) -> (left: (LowerState, Machine))
    requires
        arrived(o, s, machine, scope),
        s.loops.len() > 0,
        fate::leaves(o.env, o.world, rounds, scope, body) is Some,
        model::lower(o.env, s, body) matches Some((done, _)) && is_numbered(done),
        ({
            let done = (model::lower(o.env, s, body)->0).0;
            let closed = done.next_round(s.loops.last());
            &&& control::carries(closed.code, last.code)
            &&& closed.code.values.is_prefix_of(last.code.values)
        }),
    ensures
        ({
            let (after, leave) = fate::leaves(o.env, o.world, rounds, scope, body)->0;
            has_left(o, s, machine, last, after, leave, left.0, left.1)
        }),
    decreases body, 2nat,
{
    let (done, _) = model::lower(o.env, s, body)->0;
    let (after, leave) = fate::leaves(o.env, o.world, rounds, scope, body)->0;
    lemma_body_carries(o, s, machine, body);
    lemma_closed_carries(done, s.loops.last(), last);
    let left = lemma_leaves(o, rounds, s, machine, scope, body);
    lemma_has_left_still(o, s, machine, done, after, leave, left.0, left.1, last);
    left
}

/// The body of a `for` loop as it is entered.
pub open spec fn for_inside(
    s: LowerState,
    for_expr: For,
    start: ValueId,
    end: ValueId,
    bits: usize,
) -> LowerState {
    let header = s.code.next_block();
    let body = s.add_block().code.next_block();
    let exit = s.add_block().add_block().code.next_block();
    let s4 = s.add_block().add_block().add_block();
    let index = s4.next();
    let s5 = s4.parameter(header, type_converter::ssa_type(for_expr.index_type)).at(header);
    let (s6, cond) = s5.binary(BinaryOp::Lt, index, end);
    let s7 = s6.branch(header, cond, body, exit).jump(s.current, header, seq![start]);
    s7.at(body).bind(for_expr.index_variable, index).enter(for_context(s, bits))
}

/// The loop that a `for` is.
pub open spec fn for_context(s: LowerState, bits: usize) -> LoopContext {
    LoopContext {
        loop_header: s.code.next_block(),
        exit_block: s.add_block().add_block().code.next_block(),
        for_loop_index: Some((s.next(), bits)),
    }
}

/// A `for` loop whose body has been converted.
pub open spec fn for_code(s: LowerState, done: LowerState, bits: usize) -> LowerState {
    let context = for_context(s, bits);
    done.leave().close_round(context).at(context.exit_block)
}

/// The instruction that tests the index.
pub open spec fn for_test(s: LowerState, end: ValueId) -> InstructionView {
    InstructionView {
        op: Opcode::Binary(BinaryOp::Lt),
        operands: seq![s.next(), end],
        types: seq![],
        results: builder::fresh_values((s.code.values.len() + 1) as nat, 1),
    }
}

/// How the blocks of a `for` loop hang together.
#[verifier::spinoff_prover]
proof fn lemma_for_code(
    s: LowerState,
    for_expr: For,
    start: ValueId,
    end: ValueId,
    bits: usize,
    done: LowerState,
)
    requires
        stability::settled(s),
        stability::kept(for_inside(s, for_expr, start, end, bits), done),
        is_numbered(for_code(s, done, bits)),
    ensures
        ({
            let inside = for_inside(s, for_expr, start, end, bits);
            let last = for_code(s, done, bits);
            let context = for_context(s, bits);
            let typ = type_converter::ssa_type(for_expr.index_type);
            let entry = last.code.blocks[s.current.0 as int];
            let header = last.code.blocks[context.loop_header.0 as int];
            let back = last.code.blocks[done.current.0 as int];
            let exit = last.code.blocks[context.exit_block.0 as int];
            let n = s.code.values.len() as int;
            let m = done.code.values.len() as int;
            &&& is_numbered(done)
            &&& stability::settled(inside) && stability::settled(done) && stability::settled(last)
            &&& inside.instructions().len() == 0
            &&& inside.code.values.len() == n + 2 && s.code.values.is_prefix_of(inside.code.values)
            &&& inside.code.values[n] is Parameter && inside.code.values[n + 1] is Result
            &&& inside.code.values.is_prefix_of(done.code.values)
            &&& done.code.values.is_prefix_of(last.code.values)
            &&& last.code.values.len() == m + 2
            &&& last.code.values[m] == ValueDefView::Constant(ConstantView::U(bits, 1))
            &&& last.code.values[m + 1] is Result
            &&& control::carries(s.code, last.code) && control::carries(inside.code, last.code)
                && control::carries(done.code, last.code)
            &&& entry.instructions == s.instructions() && entry.terminator == Some(
                TerminatorView::Jmp(context.loop_header, seq![start]),
            )
            &&& last.code.has_block(context.loop_header)
            &&& header.parameters == seq![(ValueId(n as usize), typ)]
            &&& header.instructions == seq![for_test(s, end)]
            &&& header.terminator == Some(
                TerminatorView::JmpIf(
                    ValueId((n + 1) as usize),
                    inside.current,
                    context.exit_block,
                ),
            )
            &&& last.code.has_block(inside.current)
            &&& back.instructions == done.instructions().push(
                InstructionView {
                    op: Opcode::Binary(BinaryOp::Add),
                    operands: seq![ValueId(n as usize), ValueId(m as usize)],
                    types: seq![],
                    results: builder::fresh_values((m + 1) as nat, 1),
                },
            )
            &&& back.terminator == Some(
                TerminatorView::Jmp(context.loop_header, seq![ValueId((m + 1) as usize)]),
            )
            &&& last.code.has_block(done.current)
            &&& last.current == context.exit_block && last.instructions().len() == 0
            &&& last.bindings == done.bindings && last.mutable_locals == done.mutable_locals
            &&& inside.bindings == s.bindings.insert(
                for_expr.index_variable.0,
                ValueId(n as usize),
            ) && inside.mutable_locals == s.mutable_locals
        }),
{
    reveal(stability::kept);
    let inside = for_inside(s, for_expr, start, end, bits);
    let last = for_code(s, done, bits);
    let context = for_context(s, bits);
    let header = context.loop_header.0 as int;
    let exit = context.exit_block.0 as int;
    let typ = type_converter::ssa_type(for_expr.index_type);
    assert(inside.code.has_block(inside.current));
    assert(done.code.has_block(done.current));
    assert(last.code.blocks.len() == done.code.blocks.len() || !done.code.is_open(done.current));
    assert(last.code.blocks.len() == done.code.blocks.len());
    assert(inside.code.blocks.len() == s.code.blocks.len() + 3);
    assert(stability::settled(inside));
    assert(stability::settled(done));
    assert(inside.code.blocks[header].parameters =~= seq![(s.next(), typ)]);
    assert(inside.code.blocks[header].instructions =~= seq![for_test(s, end)]);
    assert(done.code.blocks[header] == inside.code.blocks[header]);
    assert(done.code.blocks[exit] == inside.code.blocks[exit]);
    assert(done.code.blocks[s.current.0 as int] == inside.code.blocks[s.current.0 as int]);
    assert(last.code.blocks[header] == inside.code.blocks[header]);
    assert(last.code.blocks[exit] == inside.code.blocks[exit]);
    assert(last.code.blocks[s.current.0 as int] == inside.code.blocks[s.current.0 as int]);
    let (s1, next) = done.leave().next_index(s.next(), bits);
    assert(s1.code.values =~= last.code.values);
    assert forall|b: int| 0 <= b < s.code.blocks.len() implies control::added_to(
        s.code.blocks[b],
        #[trigger] last.code.blocks[b],
    ) by {
        assert(done.code.blocks[b] == inside.code.blocks[b]);
    }
    assert forall|b: int| 0 <= b < done.code.blocks.len() implies control::added_to(
        done.code.blocks[b],
        #[trigger] last.code.blocks[b],
    ) by {}
    assert forall|b: int| 0 <= b < inside.code.blocks.len() implies control::added_to(
        inside.code.blocks[b],
        #[trigger] last.code.blocks[b],
    ) by {
        assert(control::added_to(done.code.blocks[b], last.code.blocks[b]));
        if b != inside.current.0 {
            assert(done.code.blocks[b] == inside.code.blocks[b]);
        }
    }
}

/// A machine over one that has all that it has.
proof fn lemma_over_more(machine: Machine, more: Machine)
    requires
        execution::extends(machine.held, more.held),
        machine.heap == more.heap,
    ensures
        control::over(machine, more.held) == more,
{
    assert(control::over(machine, more.held).held =~= more.held);
}

/// The machine on which a round of a `for` loop starts, as far as the round knows it.
pub open spec fn round_start(s: LowerState, machine: Machine, index: Data, heap: Heap) -> Machine {
    Machine { held: machine.held.insert(s.next(), index), heap }
}

/// What a round of a `for` loop starts with is there when it is entered.
proof fn lemma_round_start(
    s: LowerState,
    machine: Machine,
    for_expr: For,
    start: ValueId,
    end: ValueId,
    bits: usize,
    done: LowerState,
    index: Data,
    now: Machine,
    test: Data,
)
    requires
        stability::settled(s),
        s.has_all(machine),
        stability::kept(for_inside(s, for_expr, start, end, bits), done),
        is_numbered(for_code(s, done, bits)),
        execution::extends(
            execution::loaded(s, machine, for_code(s, done, bits)).held,
            now.held,
        ),
        laws::holds(now, s.next(), index),
    ensures
        ({
            let inside = for_inside(s, for_expr, start, end, bits);
            let last = for_code(s, done, bits);
            let begun = round_start(s, machine, index, now.heap);
            let cond = ValueId((s.code.values.len() + 1) as usize);
            &&& inside.has_all(begun)
            &&& execution::extends(
                execution::loaded(inside, begun, last).held,
                now.held.insert(cond, test),
            )
        }),
{
    lemma_for_code(s, for_expr, start, end, bits, done);
    let inside = for_inside(s, for_expr, start, end, bits);
    let last = for_code(s, done, bits);
    let begun = round_start(s, machine, index, now.heap);
    let cond = ValueId((s.code.values.len() + 1) as usize);
    assert(s.next().0 == s.code.values.len());
    let loaded = execution::loaded(inside, begun, last).held;
    let from = execution::loaded(s, machine, last).held;
    assert forall|v: ValueId| #[trigger] loaded.contains_key(v) implies now.held.insert(
        cond,
        test,
    ).contains_key(v) && now.held.insert(cond, test)[v] == loaded[v] by {
        if machine.held.contains_key(v) {
            assert(s.code.has_value(v));
            assert(from.contains_key(v));
        } else if v == s.next() {
        } else {
            assert(execution::added_data(inside, last, v) is Some);
            assert(execution::added_data(s, last, v) == execution::added_data(inside, last, v));
            assert(from.contains_key(v));
        }
    }
}

/// Control that breaks a loop gets to its exit.
proof fn lemma_broken(
    world: World,
    site: LowerState,
    machine: Machine,
    context: LoopContext,
    last: LowerState,
)
    requires
        stability::settled(site),
        control::carries(site.jump(site.current, context.exit_block, seq![]).code, last.code),
        stability::settled(last),
        last.current == context.exit_block,
        last.instructions().len() == 0,
    ensures
        control::advance(world, last.code, end_of(site, machine)) == Some(end_of(last, machine)),
{
    let ended = site.jump(site.current, context.exit_block, seq![]);
    let b = site.current.0 as int;
    assert(control::added_to(ended.code.blocks[b], last.code.blocks[b]));
    let none: Seq<ValueId> = seq![];
    assert(semantics::all_held(machine.held, none));
}

/// One round of a `for` loop, from the start of its body.
#[verifier::spinoff_prover]
proof fn lemma_for_body(
    o: Origin,
    rounds: nat,
    s: LowerState,
    machine: Machine,
    scope: Scope,
    for_expr: For,
    start: ValueId,
    end: ValueId,
    bits: usize,
    index: Data,
    now: Machine,
) -> (left: (LowerState, Machine, Machine))
    requires
        stability::settled(s),
        s.has_all(machine),
        model::lower(o.env, for_inside(s, for_expr, start, end, bits), *for_expr.block) is Some,
        ({
            let inside = for_inside(s, for_expr, start, end, bits);
            let done = (model::lower(o.env, inside, *for_expr.block)->0).0;
            let last = for_code(s, done, bits);
            &&& stability::kept(inside, done)
            &&& is_numbered(last)
            &&& execution::extends(execution::loaded(s, machine, last).held, now.held)
            &&& last.has_all(now)
        }),
        correctness::agrees(s, Machine { heap: scope.heap, ..machine }, scope),
        !scope.locals.contains_key(for_expr.index_variable.0),
        !scope.hidden.contains(for_expr.index_variable.0),
        !scope.mutable.contains(for_expr.index_variable.0),
        laws::holds(now, s.next(), index),
        now.heap == scope.heap,
        fate::round(
            o.env,
            o.world,
            rounds,
            scope.bind(for_expr.index_variable, index),
            *for_expr.block,
        ) is Some,
    ensures
        ({
            let inside = for_inside(s, for_expr, start, end, bits);
            let done = (model::lower(o.env, inside, *for_expr.block)->0).0;
            let last = for_code(s, done, bits);
            let cond = ValueId((s.code.values.len() + 1) as usize);
            let tested = Machine {
                held: now.held.insert(cond, semantics::truth(true)),
                ..now
            };
            let begun = round_start(s, machine, index, scope.heap);
            let (heap, goes_on) = fate::round(
                o.env,
                o.world,
                rounds,
                scope.bind(for_expr.index_variable, index),
                *for_expr.block,
            )->0;
            let (site, ended, second) = left;
            let leave = if goes_on {
                Leave::Continue
            } else {
                Leave::Break
            };
            let gone = left_by(site, leave, for_context(s, bits));
            &&& control::reaches(
                o.world,
                last.code,
                end_of(inside, tested),
                end_of(site, second),
            )
            &&& stability::settled(site)
            &&& travels(o.world, inside, begun, site, ended)
            &&& ended.heap == heap && second.heap == heap
            &&& execution::extends(execution::loaded(site, ended, last).held, second.held)
            &&& last.has_all(second)
            &&& control::carries(gone.code, last.code)
            &&& gone.code.values.is_prefix_of(last.code.values)
            &&& site.code.values.is_prefix_of(last.code.values)
        }),
    decreases for_expr, 0nat,
{
    let inside = for_inside(s, for_expr, start, end, bits);
    let done = (model::lower(o.env, inside, *for_expr.block)->0).0;
    let last = for_code(s, done, bits);
    let context = for_context(s, bits);
    lemma_for_code(s, for_expr, start, end, bits, done);
    assert(s.next().0 == s.code.values.len());
    let cond = ValueId((s.code.values.len() + 1) as usize);
    let test = semantics::truth(true);
    let tested = Machine { held: now.held.insert(cond, test), ..now };
    let begun = round_start(s, machine, index, scope.heap);
    let inner = scope.bind(for_expr.index_variable, index);
    lemma_round_start(s, machine, for_expr, start, end, bits, done, index, now, test);
    lemma_travels_refl(o.world, inside, begun);
    assert(correctness::agrees(inside, begun, inner)) by {
        reveal(correctness::agrees);
        assert(!machine.held.contains_key(s.next()));
        assert forall|l: u32| inner.hidden.contains(l) implies !inner.locals.dom().contains(l) by {
            assert(!scope.locals.dom().contains(l));
        }
    }
    let here = Origin { before: inside, start: begun, ..o };
    let (heap, goes_on) = fate::round(o.env, o.world, rounds, inner, *for_expr.block)->0;
    assert(inside.loops.last() == context);
    let closed = done.next_round(context);
    assert(closed.code == last.code);
    assert(control::carries(closed.code, last.code)) by {
        assert forall|b: int| 0 <= b < closed.code.blocks.len() implies control::added_to(
            closed.code.blocks[b],
            #[trigger] last.code.blocks[b],
        ) by {}
    }
    let (site, ended) = lemma_round(here, rounds, inside, begun, inner, *for_expr.block, last);
    assert(stability::settled(site) && site.has_all(ended)) by {
        reveal(travels);
    }
    lemma_site_carried(site, goes_on, context, last);
    lemma_carry(o.world, inside, begun, site, ended, last);
    let entered = execution::loaded(inside, begun, last);
    let loaded = execution::loaded(site, ended, last);
    control::lemma_reaches_over(
        o.world,
        last.code,
        end_of(inside, entered),
        end_of(site, loaded),
        tested.held,
    );
    lemma_over_more(entered, tested);
    let second = control::over(loaded, tested.held);
    assert forall|v: ValueId| #[trigger] second.held.contains_key(v) implies last.code.has_value(
        v,
    ) by {
        if loaded.held.contains_key(v) {
            assert(ended.held.contains_key(v) || execution::added_data(site, last, v) is Some);
        } else if v != cond {
            assert(now.held.contains_key(v));
        }
    }
    (site, ended, second)
}

/// The test of the index.
#[verifier::spinoff_prover]
proof fn lemma_for_test(
    world: World,
    s: LowerState,
    machine: Machine,
    for_expr: For,
    start: ValueId,
    end: ValueId,
    bits: usize,
    done: LowerState,
    x: int,
    y: int,
    now: Machine,
) -> (tested: Machine)
    requires
        stability::settled(s),
        s.has_all(machine),
        stability::kept(for_inside(s, for_expr, start, end, bits), done),
        is_numbered(for_code(s, done, bits)),
        execution::extends(
            execution::loaded(s, machine, for_code(s, done, bits)).held,
            now.held,
        ),
        for_code(s, done, bits).has_all(now),
        laws::holds(machine, end, Data::Number(y)),
        laws::holds(now, s.next(), Data::Number(x)),
    ensures
        ({
            let inside = for_inside(s, for_expr, start, end, bits);
            let last = for_code(s, done, bits);
            let cond = ValueId((s.code.values.len() + 1) as usize);
            let p0 = Point {
                block: for_context(s, bits).loop_header,
                position: 0,
                machine: now,
            };
            &&& tested == Machine { held: now.held.insert(cond, semantics::truth(x < y)), ..now }
            &&& x < y ==> control::reaches(world, last.code, p0, end_of(inside, tested))
            &&& x >= y ==> control::reaches(world, last.code, p0, end_of(last, tested))
            &&& execution::extends(execution::loaded(s, machine, last).held, tested.held)
            &&& last.has_all(tested)
        }),
{
    let inside = for_inside(s, for_expr, start, end, bits);
    let last = for_code(s, done, bits);
    let context = for_context(s, bits);
    lemma_for_code(s, for_expr, start, end, bits, done);
    assert(s.next().0 == s.code.values.len());
    let cond = ValueId((s.code.values.len() + 1) as usize);
    let test = semantics::truth(x < y);
    let loaded = execution::loaded(s, machine, last).held;
    let p0 = Point { block: context.loop_header, position: 0, machine: now };
    let tested = Machine { held: now.held.insert(cond, test), ..now };
    let p1 = Point { position: 1, machine: tested, ..p0 };
    let operands = seq![s.next(), end];
    assert(loaded.contains_key(end));
    assert(now.held.contains_key(end) && now.held[end] == Data::Number(y));
    assert(semantics::all_held(now.held, operands));
    let data = seq![Data::Number(x), Data::Number(y)];
    assert(semantics::operand_data(now.held, operands) =~= data);
    assert(builder::fresh_values((s.code.values.len() + 1) as nat, 1)[0] == cond);
    let header = last.code.blocks[context.loop_header.0 as int];
    assert(header.instructions[0] == for_test(s, end));
    assert(semantics::step(world, now, for_test(s, end)) == Some(tested));
    assert(control::advance(world, last.code, p0) == Some(p1));
    control::lemma_reaches_refl(world, last.code, p0);
    control::lemma_reaches_advance(world, last.code, p0, p0, p1);
    let none: Seq<ValueId> = seq![];
    assert(semantics::all_held(tested.held, none));
    if x < y {
        assert(control::advance(world, last.code, p1) == Some(end_of(inside, tested)));
        control::lemma_reaches_advance(world, last.code, p0, p1, end_of(inside, tested));
    } else {
        assert(control::advance(world, last.code, p1) == Some(end_of(last, tested)));
        control::lemma_reaches_advance(world, last.code, p0, p1, end_of(last, tested));
    }
    assert(!loaded.contains_key(cond));
    tested
}

/// The rounds of a `for` loop that are left, from the test of the index on.
#[verifier::spinoff_prover]
proof fn lemma_for_rounds(
    o: Origin,
    rounds: nat,
    s: LowerState,
    machine: Machine,
    scope: Scope,
    for_expr: For,
    start: ValueId,
    end: ValueId,
    bits: usize,
    index: Data,
    limit: Data,
    n: nat,
    now: Machine,
) -> (left: Machine)
    requires
        stability::settled(s),
        s.has_all(machine),
        model::lower(o.env, for_inside(s, for_expr, start, end, bits), *for_expr.block) is Some,
        ({
            let inside = for_inside(s, for_expr, start, end, bits);
            let done = (model::lower(o.env, inside, *for_expr.block)->0).0;
            let last = for_code(s, done, bits);
            &&& stability::kept(inside, done)
            &&& is_numbered(last)
            &&& execution::extends(execution::loaded(s, machine, last).held, now.held)
            &&& last.has_all(now)
        }),
        correctness::agrees(s, Machine { heap: scope.heap, ..machine }, scope),
        !scope.locals.contains_key(for_expr.index_variable.0),
        !scope.hidden.contains(for_expr.index_variable.0),
        !scope.mutable.contains(for_expr.index_variable.0),
        laws::holds(machine, end, limit),
        laws::holds(now, s.next(), index),
        now.heap == scope.heap,
        fate::for_rounds(o.env, o.world, rounds, scope, for_expr, index, limit, n) is Some,
    ensures
        ({
            let inside = for_inside(s, for_expr, start, end, bits);
            let done = (model::lower(o.env, inside, *for_expr.block)->0).0;
            let last = for_code(s, done, bits);
            &&& control::reaches(
                o.world,
                last.code,
                Point { block: for_context(s, bits).loop_header, position: 0, machine: now },
                end_of(last, left),
            )
            &&& execution::extends(execution::loaded(s, machine, last).held, left.held)
            &&& last.has_all(left)
            &&& Some(left.heap) == fate::for_rounds(
                o.env,
                o.world,
                rounds,
                scope,
                for_expr,
                index,
                limit,
                n,
            )
        }),
    decreases for_expr, n,
{
    let inside = for_inside(s, for_expr, start, end, bits);
    let done = (model::lower(o.env, inside, *for_expr.block)->0).0;
    let last = for_code(s, done, bits);
    let context = for_context(s, bits);
    let x = index->Number_0;
    let y = limit->Number_0;
    let p0 = Point { block: context.loop_header, position: 0, machine: now };
    let tested = lemma_for_test(
        o.world,
        s,
        machine,
        for_expr,
        start,
        end,
        bits,
        done,
        x,
        y,
        now,
    );
    if x >= y {
        tested
    } else {
        let begun = round_start(s, machine, index, scope.heap);
        let inner = scope.bind(for_expr.index_variable, index);
        let p2 = end_of(inside, tested);
        let (heap, goes_on) = fate::round(o.env, o.world, rounds, inner, *for_expr.block)->0;
        let (site, ended, second) = lemma_for_body(
            o,
            rounds,
            s,
            machine,
            scope,
            for_expr,
            start,
            end,
            bits,
            index,
            now,
        );
        let p3 = end_of(site, second);
        control::lemma_reaches_trans(o.world, last.code, p0, p2, p3);
        if !goes_on {
            lemma_round_kept(
                o.world,
                s,
                machine,
                for_expr,
                start,
                end,
                bits,
                done,
                site,
                begun,
                ended,
                second,
                index,
            );
            lemma_for_code(s, for_expr, start, end, bits, done);
            lemma_broken(o.world, site, second, context, last);
            control::lemma_reaches_advance(o.world, last.code, p0, p3, end_of(last, second));
            second
        } else {
            // The step to the next round.
            let (next_scope, number) = fate::next_number(o.world, Scope { heap, ..scope }, index)->0;
            let left = lemma_next_round(
                o.world,
                s,
                machine,
                for_expr,
                start,
                end,
                bits,
                done,
                site,
                begun,
                ended,
                second,
                index,
                number,
                next_scope.heap,
            );
            let p5 = Point { block: context.loop_header, position: 0, machine: left };
            control::lemma_reaches_trans(o.world, last.code, p0, p3, p5);
            assert(correctness::agrees(s, Machine { heap: next_scope.heap, ..machine }, next_scope)) by {
                reveal(correctness::agrees);
            }
            let result = lemma_for_rounds(
                o,
                rounds,
                s,
                machine,
                next_scope,
                for_expr,
                start,
                end,
                bits,
                number,
                limit,
                (n - 1) as nat,
                left,
            );
            control::lemma_reaches_trans(o.world, last.code, p0, p5, end_of(last, result));
            result
        }
    }
}

/// What the code holds before a block is ended, it holds after.
proof fn lemma_site_carried(site: LowerState, goes_on: bool, context: LoopContext, last: LowerState)
    requires
        stability::settled(site),
        ({
            let leave = if goes_on {
                Leave::Continue
            } else {
                Leave::Break
            };
            let ended = left_by(site, leave, context);
            &&& control::carries(ended.code, last.code)
            &&& ended.code.values.is_prefix_of(last.code.values)
        }),
    ensures
        control::carries(site.code, last.code),
        site.code.values.is_prefix_of(last.code.values),
{
    let leave = if goes_on {
        Leave::Continue
    } else {
        Leave::Break
    };
    let ended = left_by(site, leave, context);
    assert(control::carries(site.code, ended.code)) by {
        assert forall|b: int| 0 <= b < site.code.blocks.len() implies control::added_to(
            site.code.blocks[b],
            #[trigger] ended.code.blocks[b],
        ) by {}
    }
    assert(site.code.values.is_prefix_of(ended.code.values));
    lemma_carries_trans(site.code, ended.code, last.code);
    lemma_prefix_trans(site.code.values, ended.code.values, last.code.values);
}

/// What the loop started with is there at the end of a round.
#[verifier::spinoff_prover]
proof fn lemma_round_kept(
    world: World,
    s: LowerState,
    machine: Machine,
    for_expr: For,
    start: ValueId,
    end: ValueId,
    bits: usize,
    done: LowerState,
    site: LowerState,
    begun: Machine,
    ended: Machine,
    second: Machine,
    index: Data,
)
    requires
        stability::settled(s),
        s.has_all(machine),
        stability::kept(for_inside(s, for_expr, start, end, bits), done),
        is_numbered(for_code(s, done, bits)),
        begun.held == machine.held.insert(s.next(), index),
        travels(world, for_inside(s, for_expr, start, end, bits), begun, site, ended),
        site.code.values.is_prefix_of(for_code(s, done, bits).code.values),
        execution::extends(
            execution::loaded(site, ended, for_code(s, done, bits)).held,
            second.held,
        ),
    ensures
        execution::extends(
            execution::loaded(s, machine, for_code(s, done, bits)).held,
            second.held,
        ),
{
    lemma_for_code(s, for_expr, start, end, bits, done);
    let inside = for_inside(s, for_expr, start, end, bits);
    let last = for_code(s, done, bits);
    assert(s.next().0 == s.code.values.len());
    let loaded = execution::loaded(site, ended, last).held;
    let from = execution::loaded(s, machine, last).held;
    assert(site.has_all(ended) && execution::extends(begun.held, ended.held) && execution::extends(
        execution::loaded(inside, begun, site).held,
        ended.held,
    ) && inside.code.values.is_prefix_of(site.code.values)) by {
        reveal(travels);
    }
    assert forall|v: ValueId| #[trigger] from.contains_key(v) implies second.held.contains_key(v)
        && second.held[v] == from[v] by {
        if machine.held.contains_key(v) {
            assert(s.code.has_value(v));
            assert(begun.held.contains_key(v) && begun.held[v] == machine.held[v]);
            assert(ended.held.contains_key(v));
            assert(loaded.contains_key(v));
        } else {
            assert(execution::added_data(s, last, v) is Some);
            if v.0 < site.code.values.len() {
                assert(last.code.values[v.0 as int] == site.code.values[v.0 as int]);
                assert(execution::added_data(inside, site, v) == execution::added_data(s, last, v));
                let first = execution::loaded(inside, begun, site).held;
                assert(!begun.held.contains_key(v));
                assert(first.contains_key(v));
                assert(ended.held.contains_key(v));
                assert(loaded.contains_key(v));
            } else {
                assert(execution::added_data(site, last, v) == execution::added_data(s, last, v));
                assert(!ended.held.contains_key(v));
                assert(loaded.contains_key(v));
            }
        }
    }
}

/// The step from the end of a round to the next test of the index.
#[verifier::spinoff_prover]
proof fn lemma_next_round(
    world: World,
    s: LowerState,
    machine: Machine,
    for_expr: For,
    start: ValueId,
    end: ValueId,
    bits: usize,
    done: LowerState,
    site: LowerState,
    begun: Machine,
    ended: Machine,
    second: Machine,
    index: Data,
    number: Data,
    heap: Heap,
) -> (left: Machine)
    requires
        stability::settled(s),
        s.has_all(machine),
        stability::kept(for_inside(s, for_expr, start, end, bits), done),
        is_numbered(for_code(s, done, bits)),
        begun.held == machine.held.insert(s.next(), index),
        travels(world, for_inside(s, for_expr, start, end, bits), begun, site, ended),
        control::carries(
            site.next_round(for_context(s, bits)).code,
            for_code(s, done, bits).code,
        ),
        site.next_round(for_context(s, bits)).code.values.is_prefix_of(
            for_code(s, done, bits).code.values,
        ),
        execution::extends(
            execution::loaded(site, ended, for_code(s, done, bits)).held,
            second.held,
        ),
        for_code(s, done, bits).has_all(second),
        second.heap == ended.heap,
        (world.result)(
            Opcode::Binary(BinaryOp::Add),
            seq![index, Data::Number(1)],
            ended.heap,
        ) == Some((number, heap)),
    ensures
        ({
            let last = for_code(s, done, bits);
            &&& control::reaches(
                world,
                last.code,
                end_of(site, second),
                Point { block: for_context(s, bits).loop_header, position: 0, machine: left },
            )
            &&& execution::extends(execution::loaded(s, machine, last).held, left.held)
            &&& laws::holds(left, s.next(), number)
            &&& last.has_all(left)
            &&& left.heap == heap
        }),
{
    lemma_for_code(s, for_expr, start, end, bits, done);
    let inside = for_inside(s, for_expr, start, end, bits);
    let last = for_code(s, done, bits);
    let context = for_context(s, bits);
    assert(stability::settled(site) && site.has_all(ended) && execution::extends(
        begun.held,
        ended.held,
    )) by {
        reveal(travels);
    }
    lemma_site_carried(site, true, context, last);
    lemma_round_kept(
        world,
        s,
        machine,
        for_expr,
        start,
        end,
        bits,
        done,
        site,
        begun,
        ended,
        second,
        index,
    );
    let m = site.code.values.len();
    let one = ValueId(m as usize);
    let next = ValueId((m + 1) as usize);
    let round = site.next_round(context);
    assert(round.code.values.len() == m + 2);
    assert(round.code.values[m as int] == ValueDefView::Constant(ConstantView::U(bits, 1)));
    assert(round.code.values[(m + 1) as int] is Result);
    assert(last.code.values[m as int] == round.code.values[m as int]);
    assert(last.code.values[(m + 1) as int] == round.code.values[(m + 1) as int]);
    let b = site.current.0 as int;
    assert(control::added_to(round.code.blocks[b], last.code.blocks[b]));
    let step = InstructionView {
        op: Opcode::Binary(BinaryOp::Add),
        operands: seq![s.next(), one],
        types: seq![],
        results: builder::fresh_values((m + 1) as nat, 1),
    };
    assert(round.code.blocks[b].instructions =~= site.instructions().push(step));
    assert(s.next().0 == s.code.values.len());
    let loaded = execution::loaded(site, ended, last).held;
    assert(begun.held.contains_key(s.next()));
    assert(ended.held.contains_key(s.next()));
    assert(loaded.contains_key(s.next()) && loaded[s.next()] == index);
    assert(execution::added_data(site, last, one) == Some(Data::Number(1)));
    assert(!ended.held.contains_key(one));
    assert(loaded.contains_key(one) && loaded[one] == Data::Number(1));
    let p3 = end_of(site, second);
    let stepped = Machine { held: second.held.insert(next, number), heap };
    let p4 = Point { position: p3.position + 1, machine: stepped, ..p3 };
    let operands = seq![s.next(), one];
    assert(semantics::operand_data(second.held, operands) =~= seq![index, Data::Number(1)]);
    assert(semantics::all_held(second.held, operands));
    assert(builder::fresh_values((m + 1) as nat, 1)[0] == next);
    assert(last.code.blocks[b].instructions[p3.position as int] == step);
    assert(control::advance(world, last.code, p3) == Some(p4));
    let left = Machine { held: stepped.held.insert(s.next(), number), heap };
    let p5 = Point { block: context.loop_header, position: 0, machine: left };
    reveal_with_fuel(control::bound, 2);
    assert(semantics::all_held(stepped.held, seq![next]));
    assert(semantics::operand_data(stepped.held, seq![next])[0] == number);
    assert(control::advance(world, last.code, p4) == Some(p5));
    control::lemma_reaches_refl(world, last.code, p3);
    control::lemma_reaches_advance(world, last.code, p3, p3, p4);
    control::lemma_reaches_advance(world, last.code, p3, p4, p5);
    let from = execution::loaded(s, machine, last).held;
    assert forall|v: ValueId| #[trigger] from.contains_key(v) implies left.held.contains_key(v)
        && left.held[v] == from[v] by {
        assert(second.held.contains_key(v) && second.held[v] == from[v]);
        if machine.held.contains_key(v) {
            assert(s.code.has_value(v));
        } else {
            assert(execution::added_data(s, last, v) is Some);
        }
        assert(v != s.next() && v != next);
    }
    left
}

/// A `for` loop whose bounds have been evaluated.
#[verifier::spinoff_prover]
proof fn lemma_fate_counted(
    o: Origin,
    rounds: nat,
    s: LowerState,
    machine: Machine,
    scope: Scope,
    for_expr: For,
    start: ValueId,
    end: ValueId,
    bits: usize,
    first: Data,
    limit: Data,
) -> (left: Machine)
    requires
        arrived(o, s, machine, scope),
        laws::holds(machine, start, first),
        laws::holds(machine, end, limit),
        fate::counted(o.env, o.world, rounds, scope, for_expr, first, limit) is Some,
        model::lower_for_rest(o.env, s, for_expr, start, end, bits) matches Some((after, _))
            && is_numbered(after),
    ensures
        ({
            let (after, result) = model::lower_for_rest(o.env, s, for_expr, start, end, bits)->0;
            let (last, value) = fate::counted(
                o.env,
                o.world,
                rounds,
                scope,
                for_expr,
                first,
                limit,
            )->0;
            &&& arrived(o, after, left, last)
            &&& correctness::gives(left, result, value)
            &&& execution::extends(machine.held, left.held)
        }),
    decreases for_expr, rounds + 1,
{
    let inside = for_inside(s, for_expr, start, end, bits);
    let (done, _) = model::lower(o.env, inside, *for_expr.block)->0;
    let last = for_code(s, done, bits);
    assert(model::lower_for_rest(o.env, s, for_expr, start, end, bits) == Some(
        (last, None::<ValueId>),
    ));
    assert(stability::settled(s) && s.has_all(machine)) by {
        reveal(travels);
    }
    assert(inside.code.has_block(inside.current));
    stability::lemma_kept_refl(inside);
    frame::lemma_lower_kept(inside, o.env, inside, *for_expr.block, 0);
    lemma_for_code(s, for_expr, start, end, bits, done);
    lemma_agrees_heaps(s, machine, scope);
    assert(s.next().0 == s.code.values.len());
    // Into the loop.
    lemma_carry(o.world, o.before, o.start, s, machine, last);
    let loaded = execution::loaded(s, machine, last);
    let now = Machine { held: loaded.held.insert(s.next(), first), ..loaded };
    let begun = end_of(o.before, execution::loaded(o.before, o.start, last));
    let p = end_of(s, loaded);
    let q = Point { block: for_context(s, bits).loop_header, position: 0, machine: now };
    reveal_with_fuel(control::bound, 2);
    assert(semantics::all_held(loaded.held, seq![start]));
    assert(semantics::operand_data(loaded.held, seq![start])[0] == first);
    assert(control::advance(o.world, last.code, p) == Some(q));
    control::lemma_reaches_advance(o.world, last.code, begun, p, q);
    assert(!loaded.held.contains_key(s.next()));
    assert(last.has_all(now)) by {
        assert forall|v: ValueId| #[trigger] now.held.contains_key(v) implies last.code.has_value(
            v,
        ) by {
            if v != s.next() {
                assert(loaded.held.contains_key(v));
            }
        }
    }
    let local = for_expr.index_variable.0;
    assert(!scope.locals.contains_key(local)) by {
        assert(fate::bound_in_for(for_expr).contains(local));
        assert(scope.locals.dom().contains(local) == scope.locals.contains_key(local));
    }
    let left = lemma_for_rounds(
        o,
        rounds,
        s,
        machine,
        scope,
        for_expr,
        start,
        end,
        bits,
        first,
        limit,
        rounds,
        now,
    );
    control::lemma_reaches_trans(o.world, last.code, begun, q, end_of(last, left));
    // After the loop.
    let then = Scope { heap: left.heap, ..scope };
    assert(correctness::agrees(s, Machine { heap: left.heap, ..machine }, then)) by {
        reveal(correctness::agrees);
    }
    assert(execution::extends(machine.held, left.held)) by {
        assert forall|v: ValueId| #[trigger] machine.held.contains_key(v) implies left.held.contains_key(
            v,
        ) && left.held[v] == machine.held[v] by {
            assert(loaded.held.contains_key(v));
        }
    }
    let names = fate::bound_in_for(for_expr);
    assert forall|l: u32| !names.contains(l) implies #[trigger] stability::same_local(s, last, l) by {
        frame::lemma_lower_kept(inside, o.env, inside, *for_expr.block, l);
        assert(stability::same_local(inside, done, l));
    }
    lemma_agrees_without(s, Machine { heap: left.heap, ..machine }, then, last, left, names);
    assert(travels(o.world, o.before, o.start, last, left)) by {
        reveal(travels);
        lemma_loaded_extends(o.before, o.start, s, machine, last);
        assert forall|i: int| 0 <= i < o.before.code.values.len() implies last.code.values[i]
            == o.before.code.values[i] by {
            assert(s.code.values[i] == o.before.code.values[i]);
            assert(inside.code.values[i] == s.code.values[i]);
            assert(done.code.values[i] == inside.code.values[i]);
        }
    }
    left
}

/// The number after a bound that is inclusive.
proof fn lemma_next_number(
    o: Origin,
    s: LowerState,
    machine: Machine,
    scope: Scope,
    value: ValueId,
    data: Data,
    bits: usize,
) -> (left: Machine)
    requires
        arrived(o, s, machine, scope),
        laws::holds(machine, value, data),
        fate::next_number(o.world, scope, data) is Some,
        is_numbered(s.next_index(value, bits).0),
    ensures
        ({
            let (after, next) = s.next_index(value, bits);
            let (last, number) = fate::next_number(o.world, scope, data)->0;
            &&& arrived(o, after, left, last)
            &&& laws::holds(left, next, number)
            &&& execution::extends(machine.held, left.held)
        }),
{
    broadcast use {stability::lemma_kept_emit, stability::lemma_kept_constant};

    assert(stability::settled(s) && s.has_all(machine)) by {
        reveal(travels);
    }
    let here = Origin { before: s, start: machine, ..o };
    execution::lemma_runs_refl(o.world, s, machine);
    let constant = ConstantView::U(bits, 1);
    let (s1, one) = s.constant_value(constant);
    let (after, _) = s.next_index(value, bits);
    let first = correctness::emit_constant(here, s, machine, scope, constant);
    let op = Opcode::Binary(BinaryOp::Add);
    let left = correctness::emit_world_value(
        here,
        s1,
        first,
        scope,
        op,
        seq![value, one],
        seq![data, Data::Number(1)],
        seq![],
    );
    stability::lemma_kept_refl(s);
    lemma_travels_straight(o.world, o.before, o.start, s, machine, after, left);
    left
}

/// A `for` loop.
#[verifier::spinoff_prover]
proof fn lemma_fate_for(
    o: Origin,
    rounds: nat,
    s: LowerState,
    machine: Machine,
    scope: Scope,
    for_expr: For,
) -> (left: Machine)
    requires
        arrived(o, s, machine, scope),
        fate::for_fate(o.env, o.world, rounds, scope, for_expr) is Some,
        model::lower_for(o.env, s, for_expr) matches Some((after, _)) && is_numbered(after),
    ensures
        ({
            let (after, result) = model::lower_for(o.env, s, for_expr)->0;
            let (last, value) = fate::for_fate(o.env, o.world, rounds, scope, for_expr)->0;
            &&& arrived(o, after, left, last)
            &&& correctness::gives(left, result, value)
            &&& execution::extends(machine.held, left.held)
        }),
    decreases for_expr, rounds + 2,
{
    broadcast use {stability::lemma_kept_emit, stability::lemma_kept_constant};

    let (s1, start) = model::lower_value(o.env, s, *for_expr.start_range)->0;
    let (scope1, first) = meaning::value_meaning(o.env, o.world, scope, *for_expr.start_range)->0;
    let (s2, end_raw) = model::lower_value(o.env, s1, *for_expr.end_range)->0;
    let (scope2, upper) = meaning::value_meaning(o.env, o.world, scope1, *for_expr.end_range)->0;
    let bits = type_converter::ssa_type(for_expr.index_type).bit_size()->0;
    let (s3, end) = if for_expr.inclusive {
        s2.next_index(end_raw, bits)
    } else {
        (s2, end_raw)
    };
    let (last, _) = model::lower_for(o.env, s, for_expr)->0;
    assert(model::lower_for(o.env, s, for_expr) == model::lower_for_rest(
        o.env,
        s3,
        for_expr,
        start,
        end,
        bits,
    ));
    // Everything is numbered.
    assert(stability::settled(s)) by {
        reveal(travels);
    }
    stability::lemma_kept_refl(s);
    frame::lemma_value_kept(s, o.env, s, *for_expr.start_range, 0);
    frame::lemma_has_block(s, s1);
    stability::lemma_kept_refl(s1);
    frame::lemma_value_kept(s1, o.env, s1, *for_expr.end_range, 0);
    frame::lemma_has_block(s1, s2);
    stability::lemma_kept_refl(s2);
    frame::lemma_has_block(s2, s3);
    stability::lemma_kept_refl(s3);
    frame::lemma_for_rest_kept(s3, o.env, s3, for_expr, start, end, bits, 0);
    frame::lemma_has_block(s3, last);
    // The bounds.
    let m1 = lemma_straight(o, s, machine, scope, *for_expr.start_range);
    let m2 = lemma_straight(o, s1, m1, scope1, *for_expr.end_range);
    if for_expr.inclusive {
        let (scope3, limit) = fate::next_number(o.world, scope2, upper)->0;
        let m3 = lemma_next_number(o, s2, m2, scope2, end_raw, upper, bits);
        lemma_fate_counted(o, rounds, s3, m3, scope3, for_expr, start, end, bits, first, limit)
    } else {
        lemma_fate_counted(o, rounds, s3, m2, scope2, for_expr, start, end, bits, first, upper)
    }
}

/// The loop that a `loop` is.
pub open spec fn loop_context(s: LowerState) -> LoopContext {
    LoopContext {
        loop_header: s.code.next_block(),
        exit_block: s.add_block().code.next_block(),
        for_loop_index: None,
    }
}

/// The body of a `loop` as it is entered.
pub open spec fn loop_inside(s: LowerState) -> LowerState {
    let header = s.code.next_block();
    s.add_block().add_block().jump(s.current, header, seq![]).at(header).enter(loop_context(s))
}

/// A `loop` whose body has been converted.
pub open spec fn loop_code(s: LowerState, done: LowerState) -> LowerState {
    let context = loop_context(s);
    done.leave().close_round(context).at(context.exit_block)
}

/// How the blocks of a `loop` hang together.
#[verifier::spinoff_prover]
proof fn lemma_loop_code(s: LowerState, done: LowerState)
    requires
        stability::settled(s),
        stability::kept(loop_inside(s), done),
        is_numbered(loop_code(s, done)),
    ensures
        ({
            let inside = loop_inside(s);
            let last = loop_code(s, done);
            let context = loop_context(s);
            let entry = last.code.blocks[s.current.0 as int];
            &&& is_numbered(done)
            &&& stability::settled(inside) && stability::settled(done) && stability::settled(last)
            &&& inside.instructions().len() == 0
            &&& inside.loops.len() > 0 && inside.loops.last() == context
            &&& inside.code.values == s.code.values
            &&& s.code.values.is_prefix_of(last.code.values)
            &&& done.next_round(context).code == last.code
            &&& control::carries(s.code, last.code) && control::carries(last.code, last.code)
            &&& entry.instructions == s.instructions() && entry.terminator == Some(
                TerminatorView::Jmp(inside.current, seq![]),
            )
            &&& inside.current == context.loop_header && last.code.has_block(inside.current)
            &&& last.current == context.exit_block && last.instructions().len() == 0
            &&& last.bindings == done.bindings && last.mutable_locals == done.mutable_locals
            &&& inside.bindings == s.bindings && inside.mutable_locals == s.mutable_locals
        }),
{
    reveal(stability::kept);
    let inside = loop_inside(s);
    let last = loop_code(s, done);
    let context = loop_context(s);
    let exit = context.exit_block.0 as int;
    assert(inside.code.has_block(inside.current));
    assert(done.code.has_block(done.current));
    assert(last.code.blocks.len() == done.code.blocks.len());
    assert(inside.code.blocks.len() == s.code.blocks.len() + 2);
    assert(stability::settled(inside));
    assert(stability::settled(done));
    assert(done.code.blocks[exit] == inside.code.blocks[exit]);
    assert(last.code.blocks[exit] == inside.code.blocks[exit]);
    assert(done.code.blocks[s.current.0 as int] == inside.code.blocks[s.current.0 as int]);
    assert(last.code.blocks[s.current.0 as int] == inside.code.blocks[s.current.0 as int]);
    assert forall|b: int| 0 <= b < s.code.blocks.len() implies control::added_to(
        s.code.blocks[b],
        #[trigger] last.code.blocks[b],
    ) by {
        assert(done.code.blocks[b] == inside.code.blocks[b]);
    }
    assert forall|b: int| 0 <= b < last.code.blocks.len() implies control::added_to(
        last.code.blocks[b],
        #[trigger] last.code.blocks[b],
    ) by {}
}

/// The rounds of a `loop` that are left.
#[verifier::spinoff_prover]
proof fn lemma_loop_rounds(
    o: Origin,
    rounds: nat,
    s: LowerState,
    machine: Machine,
    scope: Scope,
    body: Expression,
    n: nat,
    now: Machine,
) -> (left: Machine)
    requires
        stability::settled(s),
        s.has_all(machine),
        model::lower(o.env, loop_inside(s), body) is Some,
        ({
            let done = (model::lower(o.env, loop_inside(s), body)->0).0;
            let last = loop_code(s, done);
            &&& stability::kept(loop_inside(s), done)
            &&& is_numbered(last)
            &&& execution::extends(execution::loaded(s, machine, last).held, now.held)
            &&& last.has_all(now)
        }),
        correctness::agrees(s, Machine { heap: scope.heap, ..machine }, scope),
        now.heap == scope.heap,
        fate::loop_rounds(o.env, o.world, rounds, scope, body, n) is Some,
    ensures
        ({
            let done = (model::lower(o.env, loop_inside(s), body)->0).0;
            let last = loop_code(s, done);
            &&& control::reaches(
                o.world,
                last.code,
                end_of(loop_inside(s), now),
                end_of(last, left),
            )
            &&& execution::extends(execution::loaded(s, machine, last).held, left.held)
            &&& last.has_all(left)
            &&& Some(left.heap) == fate::loop_rounds(o.env, o.world, rounds, scope, body, n)
        }),
    decreases body, n + 3,
{
    let inside = loop_inside(s);
    let done = (model::lower(o.env, inside, body)->0).0;
    let last = loop_code(s, done);
    let context = loop_context(s);
    lemma_loop_code(s, done);
    let begun = Machine { heap: scope.heap, ..machine };
    lemma_travels_refl(o.world, inside, begun);
    assert(correctness::agrees(inside, begun, scope)) by {
        reveal(correctness::agrees);
    }
    let here = Origin { before: inside, start: begun, ..o };
    let (heap, goes_on) = fate::round(o.env, o.world, rounds, scope, body)->0;
    let (site, ended) = lemma_round(here, rounds, inside, begun, scope, body, last);
    assert(stability::settled(site) && site.has_all(ended) && execution::extends(
        execution::loaded(inside, begun, site).held,
        ended.held,
    )) by {
        reveal(travels);
    }
    lemma_site_carried(site, goes_on, context, last);
    lemma_carry(o.world, inside, begun, site, ended, last);
    let entered = execution::loaded(inside, begun, last);
    let loaded = execution::loaded(site, ended, last);
    assert(entered.held =~= execution::loaded(s, machine, last).held) by {
        assert forall|v: ValueId| execution::added_data(inside, last, v) == execution::added_data(
            s,
            last,
            v,
        ) by {}
    }
    lemma_loaded_extends(inside, begun, site, ended, last);
    lemma_over_more(entered, now);
    control::lemma_reaches_over(
        o.world,
        last.code,
        end_of(inside, entered),
        end_of(site, loaded),
        now.held,
    );
    let second = control::over(loaded, now.held);
    let p0 = end_of(inside, now);
    let p1 = end_of(site, second);
    assert(execution::extends(execution::loaded(s, machine, last).held, second.held)) by {
        assert forall|v: ValueId| #[trigger] entered.held.contains_key(v) implies second.held.contains_key(
            v,
        ) && second.held[v] == entered.held[v] by {
            assert(loaded.held.contains_key(v));
        }
    }
    assert forall|v: ValueId| #[trigger] second.held.contains_key(v) implies last.code.has_value(
        v,
    ) by {
        if loaded.held.contains_key(v) {
            assert(ended.held.contains_key(v) || execution::added_data(site, last, v) is Some);
        } else {
            assert(now.held.contains_key(v));
        }
    }
    if !goes_on {
        lemma_broken(o.world, site, second, context, last);
        control::lemma_reaches_advance(o.world, last.code, p0, p1, end_of(last, second));
        second
    } else {
        let p2 = end_of(inside, second);
        let ended_site = site.next_round(context);
        let b = site.current.0 as int;
        assert(control::added_to(ended_site.code.blocks[b], last.code.blocks[b]));
        let none: Seq<ValueId> = seq![];
        assert(semantics::all_held(second.held, none));
        assert(control::advance(o.world, last.code, p1) == Some(p2));
        control::lemma_reaches_advance(o.world, last.code, p0, p1, p2);
        let next = Scope { heap, ..scope };
        assert(correctness::agrees(s, Machine { heap: next.heap, ..machine }, next)) by {
            reveal(correctness::agrees);
        }
        let left = lemma_loop_rounds(o, rounds, s, machine, next, body, (n - 1) as nat, second);
        control::lemma_reaches_trans(o.world, last.code, p0, p2, end_of(last, left));
        left
    }
}

/// A `loop`.
#[verifier::spinoff_prover]
proof fn lemma_fate_loop(
    o: Origin,
    rounds: nat,
    s: LowerState,
    machine: Machine,
    scope: Scope,
    body: Expression,
) -> (left: Machine)
    requires
        arrived(o, s, machine, scope),
        fate::loop_fate(o.env, o.world, rounds, scope, body) is Some,
        model::lower_loop(o.env, s, body) matches Some((after, _)) && is_numbered(after),
    ensures
        ({
            let (after, result) = model::lower_loop(o.env, s, body)->0;
            let (last, value) = fate::loop_fate(o.env, o.world, rounds, scope, body)->0;
            &&& arrived(o, after, left, last)
            &&& correctness::gives(left, result, value)
            &&& execution::extends(machine.held, left.held)
        }),
    decreases body, rounds + 4,
{
    let inside = loop_inside(s);
    let (done, _) = model::lower(o.env, inside, body)->0;
    let last = loop_code(s, done);
    assert(model::lower_loop(o.env, s, body) == Some((last, None::<ValueId>)));
    assert(stability::settled(s) && s.has_all(machine)) by {
        reveal(travels);
    }
    assert(inside.code.has_block(inside.current));
    stability::lemma_kept_refl(inside);
    frame::lemma_lower_kept(inside, o.env, inside, body, 0);
    lemma_loop_code(s, done);
    lemma_agrees_heaps(s, machine, scope);
    // Into the loop.
    lemma_carry(o.world, o.before, o.start, s, machine, last);
    let loaded = execution::loaded(s, machine, last);
    let begun = end_of(o.before, execution::loaded(o.before, o.start, last));
    let p = end_of(s, loaded);
    let q = end_of(inside, loaded);
    let none: Seq<ValueId> = seq![];
    assert(semantics::all_held(loaded.held, none));
    assert(control::advance(o.world, last.code, p) == Some(q));
    control::lemma_reaches_advance(o.world, last.code, begun, p, q);
    assert forall|v: ValueId| #[trigger] loaded.held.contains_key(v) implies last.code.has_value(
        v,
    ) by {
        assert(machine.held.contains_key(v) || execution::added_data(s, last, v) is Some);
    }
    let left = lemma_loop_rounds(o, rounds, s, machine, scope, body, rounds, loaded);
    control::lemma_reaches_trans(o.world, last.code, begun, q, end_of(last, left));
    // After the loop.
    lemma_after_loop(o, s, machine, scope, last, left, fate::bound_in(body), inside, done, body);
    left
}

/// What holds after a loop: the variables that were there before it, and the heap that it left.
#[verifier::spinoff_prover]
proof fn lemma_after_loop(
    o: Origin,
    s: LowerState,
    machine: Machine,
    scope: Scope,
    last: LowerState,
    left: Machine,
    names: Set<u32>,
    inside: LowerState,
    done: LowerState,
    body: Expression,
)
    requires
        arrived(o, s, machine, scope),
        stability::settled(last),
        s.code.values.is_prefix_of(last.code.values),
        inside.code.has_block(inside.current),
        model::lower(o.env, inside, body) matches Some((x, _)) && x == done,
        last.bindings == done.bindings,
        last.mutable_locals == done.mutable_locals,
        forall|l: u32| !names.contains(l) ==> stability::same_local(s, inside, l) && !meaning::binds(
            body,
            l,
        ),
        names.disjoint(scope.locals.dom()),
        execution::extends(execution::loaded(s, machine, last).held, left.held),
        last.has_all(left),
        control::reaches(
            o.world,
            last.code,
            end_of(o.before, execution::loaded(o.before, o.start, last)),
            end_of(last, left),
        ),
    ensures
        arrived(o, last, left, (Scope { heap: left.heap, ..scope }).without(names)),
        execution::extends(machine.held, left.held),
{
    let then = Scope { heap: left.heap, ..scope };
    let loaded = execution::loaded(s, machine, last);
    assert(correctness::agrees(s, Machine { heap: left.heap, ..machine }, then)) by {
        reveal(correctness::agrees);
    }
    assert(execution::extends(machine.held, left.held)) by {
        assert forall|v: ValueId| #[trigger] machine.held.contains_key(v) implies left.held.contains_key(
            v,
        ) && left.held[v] == machine.held[v] by {
            assert(loaded.held.contains_key(v));
        }
    }
    stability::lemma_kept_refl(inside);
    assert forall|l: u32| !names.contains(l) implies #[trigger] stability::same_local(s, last, l) by {
        frame::lemma_lower_kept(inside, o.env, inside, body, l);
        assert(stability::same_local(inside, done, l));
        assert(stability::same_local(s, inside, l));
    }
    lemma_agrees_without(s, Machine { heap: left.heap, ..machine }, then, last, left, names);
    assert(travels(o.world, o.before, o.start, last, left)) by {
        reveal(travels);
        lemma_loaded_extends(o.before, o.start, s, machine, last);
        lemma_prefix_trans(o.before.code.values, s.code.values, last.code.values);
    }
}

/// A straight line stays in its block.
proof fn lemma_straight_stays(
    o: Origin,
    s: LowerState,
    machine: Machine,
    scope: Scope,
    e: Expression,
)
    requires
        arrived(o, s, machine, scope),
        meaning::meaning(o.env, o.world, scope, e) is Some,
        model::lower(o.env, s, e) matches Some((after, _)) && is_numbered(after),
    ensures
        model::lower(o.env, s, e) matches Some((after, _)) && after.current == s.current,
{
    assert(stability::settled(s) && s.has_all(machine)) by {
        reveal(travels);
    }
    let here = Origin { before: s, start: machine, ..o };
    execution::lemma_runs_refl(o.world, s, machine);
    let end = correctness::lemma_means(here, s, machine, scope, e);
    reveal(execution::runs);
}

/// The loop that a `while` is.
pub open spec fn while_context(s: LowerState) -> LoopContext {
    LoopContext {
        loop_header: s.code.next_block(),
        exit_block: s.add_block().add_block().code.next_block(),
        for_loop_index: None,
    }
}

/// The header of a `while` loop, before its condition.
pub open spec fn while_header(s: LowerState) -> LowerState {
    let header = s.code.next_block();
    s.add_block().add_block().add_block().jump(s.current, header, seq![]).at(header)
}

/// The body of a `while` loop as it is entered.
pub open spec fn while_inside(s: LowerState, s2: LowerState, cond: ValueId) -> LowerState {
    let body = s.add_block().code.next_block();
    let context = while_context(s);
    s2.branch(context.loop_header, cond, body, context.exit_block).at(body).enter(context)
}

/// A `while` loop whose body has been converted.
pub open spec fn while_code(s: LowerState, done: LowerState) -> LowerState {
    let context = while_context(s);
    done.leave().close_round(context).at(context.exit_block)
}

/// How the blocks of a `while` loop hang together, where its condition is a straight line.
#[verifier::spinoff_prover]
proof fn lemma_while_code(s: LowerState, s2: LowerState, cond: ValueId, done: LowerState)
    requires
        stability::settled(s),
        stability::kept(while_header(s), s2),
        s2.current == while_header(s).current,
        stability::kept(while_inside(s, s2, cond), done),
        is_numbered(while_code(s, done)),
    ensures
        ({
            let s1 = while_header(s);
            let inside = while_inside(s, s2, cond);
            let last = while_code(s, done);
            let context = while_context(s);
            let entry = last.code.blocks[s.current.0 as int];
            let header = last.code.blocks[s1.current.0 as int];
            &&& is_numbered(s2) && is_numbered(done)
            &&& stability::settled(s1) && stability::settled(s2) && stability::settled(inside)
            &&& stability::settled(done) && stability::settled(last)
            &&& s1.instructions().len() == 0 && inside.instructions().len() == 0
            &&& inside.loops.len() > 0 && inside.loops.last() == context
            &&& s1.code.values == s.code.values && s1.code.values.is_prefix_of(s2.code.values)
            &&& inside.code.values == s2.code.values
            &&& s.code.values.is_prefix_of(last.code.values)
            &&& s2.code.values.is_prefix_of(last.code.values)
            &&& done.next_round(context).code == last.code
            &&& control::carries(s.code, last.code) && control::carries(s2.code, last.code)
                && control::carries(last.code, last.code)
            &&& entry.instructions == s.instructions() && entry.terminator == Some(
                TerminatorView::Jmp(s1.current, seq![]),
            )
            &&& header.instructions == s2.instructions() && header.terminator == Some(
                TerminatorView::JmpIf(cond, inside.current, context.exit_block),
            )
            &&& s1.current == context.loop_header && last.code.has_block(s1.current)
            &&& last.code.has_block(inside.current)
            &&& last.current == context.exit_block && last.instructions().len() == 0
            &&& last.bindings == done.bindings && last.mutable_locals == done.mutable_locals
            &&& s1.bindings == s.bindings && s1.mutable_locals == s.mutable_locals
            &&& inside.bindings == s2.bindings && inside.mutable_locals == s2.mutable_locals
        }),
{
    reveal(stability::kept);
    let s1 = while_header(s);
    let inside = while_inside(s, s2, cond);
    let last = while_code(s, done);
    let context = while_context(s);
    let exit = context.exit_block.0 as int;
    let header = s1.current.0 as int;
    let body = inside.current.0 as int;
    assert(s1.code.has_block(s1.current));
    assert(s2.code.has_block(s2.current));
    assert(inside.code.has_block(inside.current));
    assert(done.code.has_block(done.current));
    assert(last.code.blocks.len() == done.code.blocks.len());
    assert(s1.code.blocks.len() == s.code.blocks.len() + 3);
    assert(stability::settled(s1));
    assert(stability::settled(s2));
    assert(s2.code.blocks[body] == s1.code.blocks[body]);
    assert(s2.code.blocks[exit] == s1.code.blocks[exit]);
    assert(stability::settled(inside));
    assert(stability::settled(done));
    assert(done.code.blocks[exit] == inside.code.blocks[exit]);
    assert(done.code.blocks[header] == inside.code.blocks[header]);
    assert(last.code.blocks[exit] == inside.code.blocks[exit]);
    assert(last.code.blocks[header] == inside.code.blocks[header]);
    let at = s.current.0 as int;
    assert(s2.code.blocks[at] == s1.code.blocks[at]);
    assert(done.code.blocks[at] == inside.code.blocks[at]);
    assert(last.code.blocks[at] == inside.code.blocks[at]);
    assert forall|b: int| 0 <= b < s.code.blocks.len() implies control::added_to(
        s.code.blocks[b],
        #[trigger] last.code.blocks[b],
    ) by {
        assert(s2.code.blocks[b] == s1.code.blocks[b]);
        assert(done.code.blocks[b] == inside.code.blocks[b]);
    }
    assert forall|b: int| 0 <= b < s2.code.blocks.len() implies control::added_to(
        s2.code.blocks[b],
        #[trigger] last.code.blocks[b],
    ) by {
        if b != body {
            assert(done.code.blocks[b] == inside.code.blocks[b]);
        }
    }
    assert forall|b: int| 0 <= b < last.code.blocks.len() implies control::added_to(
        last.code.blocks[b],
        #[trigger] last.code.blocks[b],
    ) by {}
    lemma_prefix_trans(s1.code.values, s2.code.values, done.code.values);
}

/// Going on over a machine that has more.
proof fn lemma_go_over(
    world: World,
    from: LowerState,
    start: Machine,
    to: LowerState,
    end: Machine,
    last: LowerState,
    now: Machine,
) -> (second: Machine)
    requires
        travels(world, from, start, to, end),
        control::carries(to.code, last.code),
        to.code.values.is_prefix_of(last.code.values),
        execution::extends(execution::loaded(from, start, last).held, now.held),
        now.heap == start.heap,
        last.has_all(now),
    ensures
        control::reaches(world, last.code, end_of(from, now), end_of(to, second)),
        second.heap == end.heap,
        execution::extends(execution::loaded(to, end, last).held, second.held),
        execution::extends(
            execution::loaded(from, start, last).held,
            execution::loaded(to, end, last).held,
        ),
        last.has_all(second),
{
    lemma_carry(world, from, start, to, end, last);
    let entered = execution::loaded(from, start, last);
    let loaded = execution::loaded(to, end, last);
    assert(to.has_all(end)) by {
        reveal(travels);
    }
    assert(execution::extends(entered.held, loaded.held)) by {
        reveal(travels);
        lemma_loaded_extends(from, start, to, end, last);
    }
    lemma_over_more(entered, now);
    control::lemma_reaches_over(
        world,
        last.code,
        end_of(from, entered),
        end_of(to, loaded),
        now.held,
    );
    let second = control::over(loaded, now.held);
    assert forall|v: ValueId| #[trigger] second.held.contains_key(v) implies last.code.has_value(
        v,
    ) by {
        if loaded.held.contains_key(v) {
            assert(end.held.contains_key(v) || execution::added_data(to, last, v) is Some);
        } else {
            assert(now.held.contains_key(v));
        }
    }
    second
}

proof fn lemma_extends_trans(
    a: Map<ValueId, Data>,
    b: Map<ValueId, Data>,
    c: Map<ValueId, Data>,
)
    requires
        execution::extends(a, b),
        execution::extends(b, c),
    ensures
        execution::extends(a, c),
{
    assert forall|v: ValueId| #[trigger] a.contains_key(v) implies c.contains_key(v) && c[v]
        == a[v] by {
        assert(b.contains_key(v));
    }
}

/// The rounds of a `while` loop that are left, from its condition on.
#[verifier::spinoff_prover]
proof fn lemma_while_rounds(
    o: Origin,
    rounds: nat,
    s: LowerState,
    machine: Machine,
    scope: Scope,
    while_expr: While,
    n: nat,
    s2: LowerState,
    cond: ValueId,
    done: LowerState,
    now: Machine,
) -> (left: Machine)
    requires
        stability::settled(s),
        s.has_all(machine),
        model::lower_value(o.env, while_header(s), *while_expr.condition) == Some((s2, cond)),
        model::lower(o.env, while_inside(s, s2, cond), *while_expr.body) matches Some((x, _)) && x
            == done,
        stability::kept(while_header(s), s2),
        s2.current == while_header(s).current,
        stability::kept(while_inside(s, s2, cond), done),
        is_numbered(while_code(s, done)),
        execution::extends(execution::loaded(s, machine, while_code(s, done)).held, now.held),
        while_code(s, done).has_all(now),
        correctness::agrees(s, Machine { heap: scope.heap, ..machine }, scope),
        now.heap == scope.heap,
        fate::while_rounds(o.env, o.world, rounds, scope, while_expr, n) is Some,
    ensures
        control::reaches(
            o.world,
            while_code(s, done).code,
            end_of(while_header(s), now),
            end_of(while_code(s, done), left),
        ),
        execution::extends(execution::loaded(s, machine, while_code(s, done)).held, left.held),
        while_code(s, done).has_all(left),
        Some(left.heap) == fate::while_rounds(o.env, o.world, rounds, scope, while_expr, n),
    decreases while_expr, n,
{
    let s1 = while_header(s);
    let inside = while_inside(s, s2, cond);
    let last = while_code(s, done);
    let context = while_context(s);
    lemma_while_code(s, s2, cond, done);
    // The condition.
    let begun = Machine { heap: scope.heap, ..machine };
    let base = execution::loaded(s, machine, last).held;
    lemma_travels_refl(o.world, s1, begun);
    assert(correctness::agrees(s1, begun, scope)) by {
        reveal(correctness::agrees);
    }
    let here = Origin { before: s1, start: begun, ..o };
    let (middle, data) = meaning::value_meaning(
        o.env,
        o.world,
        scope,
        *while_expr.condition,
    )->0;
    let m2 = lemma_straight(here, s1, begun, scope, *while_expr.condition);
    lemma_agrees_heaps(s2, m2, middle);
    assert(execution::loaded(s1, begun, last).held =~= base) by {
        assert forall|v: ValueId| execution::added_data(s1, last, v) == execution::added_data(
            s,
            last,
            v,
        ) by {}
    }
    let first = lemma_go_over(o.world, s1, begun, s2, m2, last, now);
    let p0 = end_of(s1, now);
    let p1 = end_of(s2, first);
    let tested = execution::loaded(s2, m2, last).held;
    lemma_extends_trans(base, tested, first.held);
    assert(tested.contains_key(cond) && tested[cond] == data);
    assert(first.held.contains_key(cond) && first.held[cond] == data);
    let none: Seq<ValueId> = seq![];
    assert(semantics::all_held(first.held, none));
    if data == semantics::truth(false) {
        assert(control::advance(o.world, last.code, p1) == Some(end_of(last, first)));
        control::lemma_reaches_advance(o.world, last.code, p0, p1, end_of(last, first));
        first
    } else {
        // The body.
        let p2 = end_of(inside, first);
        assert(control::advance(o.world, last.code, p1) == Some(p2));
        control::lemma_reaches_advance(o.world, last.code, p0, p1, p2);
        assert(s2.has_all(m2)) by {
            reveal(travels);
        }
        lemma_travels_refl(o.world, inside, m2);
        assert(correctness::agrees(inside, m2, middle)) by {
            reveal(correctness::agrees);
        }
        let there = Origin { before: inside, start: m2, ..o };
        let (heap, goes_on) = fate::round(o.env, o.world, rounds, middle, *while_expr.body)->0;
        let (site, ended) = lemma_round(there, rounds, inside, m2, middle, *while_expr.body, last);
        assert(stability::settled(site)) by {
            reveal(travels);
        }
        lemma_site_carried(site, goes_on, context, last);
        assert(execution::loaded(inside, m2, last).held =~= tested) by {
            assert forall|v: ValueId| execution::added_data(inside, last, v)
                == execution::added_data(s2, last, v) by {}
        }
        let second = lemma_go_over(o.world, inside, m2, site, ended, last, first);
        let p3 = end_of(site, second);
        control::lemma_reaches_trans(o.world, last.code, p0, p2, p3);
        let after = execution::loaded(site, ended, last).held;
        lemma_extends_trans(base, tested, after);
        lemma_extends_trans(base, after, second.held);
        if !goes_on {
            lemma_broken(o.world, site, second, context, last);
            control::lemma_reaches_advance(o.world, last.code, p0, p3, end_of(last, second));
            second
        } else {
            let p4 = end_of(s1, second);
            let b = site.current.0 as int;
            assert(control::added_to(
                site.next_round(context).code.blocks[b],
                last.code.blocks[b],
            ));
            assert(semantics::all_held(second.held, none));
            assert(control::advance(o.world, last.code, p3) == Some(p4));
            control::lemma_reaches_advance(o.world, last.code, p0, p3, p4);
            let next = Scope { heap, ..scope };
            assert(correctness::agrees(s, Machine { heap: next.heap, ..machine }, next)) by {
                reveal(correctness::agrees);
            }
            let left = lemma_while_rounds(
                o,
                rounds,
                s,
                machine,
                next,
                while_expr,
                (n - 1) as nat,
                s2,
                cond,
                done,
                second,
            );
            control::lemma_reaches_trans(o.world, last.code, p0, p4, end_of(last, left));
            left
        }
    }
}

/// A `while` loop.
#[verifier::spinoff_prover]
proof fn lemma_fate_while(
    o: Origin,
    rounds: nat,
    s: LowerState,
    machine: Machine,
    scope: Scope,
    while_expr: While,
) -> (left: Machine)
    requires
        arrived(o, s, machine, scope),
        fate::while_fate(o.env, o.world, rounds, scope, while_expr) is Some,
        model::lower_while(o.env, s, while_expr) matches Some((after, _)) && is_numbered(after),
    ensures
        ({
            let (after, result) = model::lower_while(o.env, s, while_expr)->0;
            let (last, value) = fate::while_fate(o.env, o.world, rounds, scope, while_expr)->0;
            &&& arrived(o, after, left, last)
            &&& correctness::gives(left, result, value)
            &&& execution::extends(machine.held, left.held)
        }),
    decreases while_expr, rounds + 1,
{
    let s1 = while_header(s);
    let (s2, cond) = model::lower_value(o.env, s1, *while_expr.condition)->0;
    let inside = while_inside(s, s2, cond);
    let (done, _) = model::lower(o.env, inside, *while_expr.body)->0;
    let last = while_code(s, done);
    assert(model::lower_while(o.env, s, while_expr) == Some((last, None::<ValueId>)));
    assert(stability::settled(s) && s.has_all(machine)) by {
        reveal(travels);
    }
    lemma_agrees_heaps(s, machine, scope);
    stability::lemma_kept_refl(s1);
    frame::lemma_value_kept(s1, o.env, s1, *while_expr.condition, 0);
    frame::lemma_has_block(s1, s2);
    stability::lemma_kept_refl(inside);
    frame::lemma_lower_kept(inside, o.env, inside, *while_expr.body, 0);
    frame::lemma_has_block(inside, done);
    lemma_closing_numbered(done.leave(), while_context(s), last);
    assert(stability::settled(s1));
    lemma_travels_refl(o.world, s1, machine);
    assert(correctness::agrees(s1, machine, scope)) by {
        reveal(correctness::agrees);
    }
    let here = Origin { before: s1, start: machine, ..o };
    lemma_straight_stays(here, s1, machine, scope, *while_expr.condition);
    lemma_while_code(s, s2, cond, done);
    // Into the loop.
    lemma_carry(o.world, o.before, o.start, s, machine, last);
    let loaded = execution::loaded(s, machine, last);
    let begun = end_of(o.before, execution::loaded(o.before, o.start, last));
    let p = end_of(s, loaded);
    let q = end_of(s1, loaded);
    let none: Seq<ValueId> = seq![];
    assert(semantics::all_held(loaded.held, none));
    assert(control::advance(o.world, last.code, p) == Some(q));
    control::lemma_reaches_advance(o.world, last.code, begun, p, q);
    assert forall|v: ValueId| #[trigger] loaded.held.contains_key(v) implies last.code.has_value(
        v,
    ) by {
        assert(machine.held.contains_key(v) || execution::added_data(s, last, v) is Some);
    }
    let left = lemma_while_rounds(
        o,
        rounds,
        s,
        machine,
        scope,
        while_expr,
        rounds,
        s2,
        cond,
        done,
        loaded,
    );
    control::lemma_reaches_trans(o.world, last.code, begun, q, end_of(last, left));
    // After the loop.
    let names = fate::bound_in_while(while_expr);
    assert forall|l: u32| !names.contains(l) implies stability::same_local(s, inside, l)
        && !meaning::binds(*while_expr.body, l) by {
        frame::lemma_value_kept(s1, o.env, s1, *while_expr.condition, l);
        assert(!fate::bound_in(*while_expr.condition).contains(l));
        assert(!fate::bound_in(*while_expr.body).contains(l));
    }
    lemma_after_loop(o, s, machine, scope, last, left, names, inside, done, *while_expr.body);
    left
}

/// Code that has been closed is numbered, so it was before.
proof fn lemma_closing_numbered(done: LowerState, context: LoopContext, last: LowerState)
    requires
        done.code.has_block(done.current),
        last == done.close_round(context).at(context.exit_block),
        is_numbered(last),
    ensures
        is_numbered(done),
{
}

/// The code of an expression does what the expression comes to, also where it has conditions that
/// are not known beforehand, and loops: control gets to the end of the code, its result holds the
/// value there, and the variables and the heap are then what they should be. Control takes the
/// branches that the program takes, and makes as many rounds.
pub proof fn law_code_does_what_the_program_comes_to(
    env: LowerEnv,
    world: World,
    s: LowerState,
    machine: Machine,
    scope: Scope,
    rounds: nat,
    e: Expression,
)
    requires
        stability::settled(s),
        s.has_all(machine),
        correctness::agrees(s, machine, scope),
        fate::fate(env, world, rounds, scope, e) is Some,
        model::lower(env, s, e) matches Some((after, _)) && is_numbered(after),
    ensures
        ({
            let (after, result) = model::lower(env, s, e)->0;
            let (last, value) = fate::fate(env, world, rounds, scope, e)->0;
            exists|end: Machine|
                {
                    &&& #[trigger] correctness::agrees(after, end, last)
                    &&& correctness::gives(end, result, value)
                    &&& control::reaches(
                        world,
                        after.code,
                        end_of(s, execution::loaded(s, machine, after)),
                        end_of(after, end),
                    )
                }
        }),
{
    let o = Origin { env, world, before: s, start: machine };
    lemma_travels_refl(world, s, machine);
    let end = lemma_fate(o, rounds, s, machine, scope, e);
    let (after, _) = model::lower(env, s, e)->0;
    let (last, _) = fate::fate(env, world, rounds, scope, e)->0;
    assert(correctness::agrees(after, end, last));
    reveal(travels);
}

} // verus!
