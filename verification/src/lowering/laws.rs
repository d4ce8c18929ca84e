//! What the code of operators, casts, assignments and literals computes, where the code of
//! conditions and jumps leads, and what a local reads as.

use vstd::arithmetic::power2::*;
use vstd::prelude::*;
use crate::ast;
use crate::ast::{
    BinaryOpKind, Definition, Expression, ExpressionKind, Ident, If, Literal, LocalId, Signedness,
};
use crate::field;
use crate::lowering::execution;
use crate::lowering::expression_converter;
use crate::lowering::forms;
use crate::lowering::frame;
use crate::lowering::meaning;
use crate::lowering::model;
use crate::lowering::model::{AccessStep, LowerEnv, LowerState};
use crate::lowering::stability;
use crate::lowering::type_converter;
use crate::ssa::hlssa::{
    BinaryOp, BlockView, CastTarget, ConstantView, Opcode, TerminatorView, TypeView, ValueId,
};
use crate::ssa::semantics;
use crate::ssa::semantics::{Data, Machine, World};

verus! {

/// A value holds something.
pub open spec fn holds(machine: Machine, value: ValueId, data: Data) -> bool {
    machine.held.contains_key(value) && machine.held[value] == data
}

/// What a comparison says of two numbers; other operators are no comparisons.
pub open spec fn comparison(operator: BinaryOpKind, x: int, y: int) -> Option<bool> {
    match operator {
        BinaryOpKind::Equal => Some(x == y),
        BinaryOpKind::NotEqual => Some(x != y),
        BinaryOpKind::Less => Some(x < y),
        BinaryOpKind::LessEqual => Some(x <= y),
        BinaryOpKind::Greater => Some(x > y),
        BinaryOpKind::GreaterEqual => Some(x >= y),
        _ => None,
    }
}

pub proof fn lemma_runs_comparison(
    world: World,
    before: LowerState,
    start: Machine,
    s: LowerState,
    machine: Machine,
    operator: BinaryOpKind,
    a: ValueId,
    b: ValueId,
    x: int,
    y: int,
) -> (end: Machine)
    requires
        execution::runs(world, before, start, s, machine),
        model::lower_operator(s, operator, a, b).0.code.values.len() <= usize::MAX,
        holds(machine, a, Data::Number(x)),
        holds(machine, b, Data::Number(y)),
        comparison(operator, x, y) is Some,
    ensures
        ({
            let (after, result) = model::lower_operator(s, operator, a, b);
            &&& execution::runs(world, before, start, after, end)
            &&& execution::extends(machine.held, end.held)
            &&& end.heap == machine.heap
            &&& holds(end, result, semantics::truth(comparison(operator, x, y)->0))
        }),
{
    let (op, p, q) = match operator {
        BinaryOpKind::Equal | BinaryOpKind::NotEqual => (BinaryOp::Eq, a, b),
        BinaryOpKind::Less | BinaryOpKind::GreaterEqual => (BinaryOp::Lt, a, b),
        _ => (BinaryOp::Lt, b, a),
    };
    let (s1, v) = s.binary(op, p, q);
    let operands = seq![p, q];
    let opcode = Opcode::Binary(op);
    let data = semantics::compute(opcode, semantics::operand_data(machine.held, operands))->0;
    let heap = machine.heap;
    execution::lemma_runs_value(world, before, start, s, machine, opcode, operands, seq![], data, heap);
    let middle = execution::with_value(machine, v, data, heap);
    match operator {
        BinaryOpKind::NotEqual | BinaryOpKind::LessEqual | BinaryOpKind::GreaterEqual => {
            let negated = seq![v];
            assert(semantics::operand_data(middle.held, negated)[0] == data);
            let opposite = semantics::negation(data)->0;
            execution::lemma_runs_value(
                world,
                before,
                start,
                s1,
                middle,
                Opcode::Not,
                negated,
                seq![],
                opposite,
                heap,
            );
            execution::with_value(middle, s1.next(), opposite, heap)
        },
        _ => middle,
    }
}

/// All six comparisons are computed, though the instruction set has only `==` and `<`.
pub proof fn law_comparisons_are_computed(
    world: World,
    s: LowerState,
    operator: BinaryOpKind,
    a: ValueId,
    b: ValueId,
    machine: Machine,
    x: int,
    y: int,
)
    requires
        s.code.has_block(s.current),
        s.code.values.len() + 2 <= usize::MAX,
        s.has_all(machine),
        holds(machine, a, Data::Number(x)),
        holds(machine, b, Data::Number(y)),
        comparison(operator, x, y) is Some,
    ensures
        ({
            let (after, result) = model::lower_operator(s, operator, a, b);
            execution::outcome(world, s, machine, after) matches Some(end) && holds(
                end,
                result,
                semantics::truth(comparison(operator, x, y)->0),
            )
        }),
{
    execution::lemma_runs_refl(world, s, machine);
    let end = lemma_runs_comparison(world, s, machine, s, machine, operator, a, b, x, y);
    reveal(execution::runs);
}

/// A turn on the way to a part: to an element, or to a field.
pub enum Turn {
    Element(int),
    Field(usize),
}

impl Turn {
    /// The position of the part.
    pub open spec fn position(self) -> int {
        match self {
            Turn::Element(index) => index,
            Turn::Field(field) => field as int,
        }
    }

    /// The type of the part, if the type has one.
    pub open spec fn part_type(self, typ: ast::Type) -> Option<ast::Type> {
        match self {
            Turn::Element(_) => model::element_type(typ),
            Turn::Field(field) => match typ {
                ast::Type::Tuple(fields) if field < fields@.len() => Some(fields@[field as int]),
                _ => None,
            },
        }
    }
}

/// A path takes these turns.
pub open spec fn takes(held: Map<ValueId, Data>, path: Seq<AccessStep>, turns: Seq<Turn>) -> bool {
    &&& path.len() == turns.len()
    &&& forall|i: int|
        0 <= i < path.len() ==> match #[trigger] path[i] {
            AccessStep::Index(index) => held.contains_key(index) && turns[i] is Element
                && held[index] == Data::Number(turns[i].position()),
            AccessStep::Field(field) => turns[i] == Turn::Field(field),
        }
}

/// Turns lead, through data of a type, from part to part.
pub open spec fn leads(data: Data, typ: ast::Type, turns: Seq<Turn>) -> bool
    decreases turns.len(),
{
    turns.len() > 0 ==> match (turns[0].part_type(typ), data.part(turns[0].position())) {
        (Some(inner), Some(part)) => {
            &&& typ matches ast::Type::Tuple(fields) ==> data->Parts_0.len() == fields@.len()
            &&& leads(part, inner, turns.drop_first())
        },
        _ => false,
    }
}

/// Data with the part that turns lead to replaced, and nothing else.
pub open spec fn replaced(data: Data, turns: Seq<Turn>, new: Data) -> Data
    decreases turns.len(),
{
    if turns.len() == 0 {
        new
    } else {
        let at = turns[0].position();
        data.with_part(at, replaced(data.part(at)->0, turns.drop_first(), new))
    }
}

/// The part that turns lead to.
pub open spec fn reached(data: Data, turns: Seq<Turn>) -> Data
    decreases turns.len(),
{
    if turns.len() == 0 {
        data
    } else {
        reached(data.part(turns[0].position())->0, turns.drop_first())
    }
}

/// What is read where something has been written is what was written.
pub proof fn law_the_new_part_is_read_back(data: Data, typ: ast::Type, turns: Seq<Turn>, new: Data)
    requires
        leads(data, typ, turns),
    ensures
        reached(replaced(data, turns, new), turns) == new,
    decreases turns.len(),
{
    if turns.len() > 0 {
        let at = turns[0].position();
        let inner = turns[0].part_type(typ)->0;
        law_the_new_part_is_read_back(data.part(at)->0, inner, turns.drop_first(), new);
    }
}

/// What is read elsewhere is what was there before: turns that part from the written ones at
/// some point lead to what they led to.
pub proof fn law_other_parts_are_kept(
    data: Data,
    typ: ast::Type,
    turns: Seq<Turn>,
    new: Data,
    others: Seq<Turn>,
    fork: int,
)
    requires
        leads(data, typ, turns),
        leads(data, typ, others),
        0 <= fork < turns.len(),
        fork < others.len(),
        forall|i: int| 0 <= i < fork ==> turns[i] == others[i],
        turns[fork].position() != others[fork].position(),
    ensures
        reached(replaced(data, turns, new), others) == reached(data, others),
    decreases turns.len(),
{
    let at = turns[0].position();
    if fork > 0 {
        assert(turns[0] == others[0]);
        let inner = turns[0].part_type(typ)->0;
        law_other_parts_are_kept(
            data.part(at)->0,
            inner,
            turns.drop_first(),
            new,
            others.drop_first(),
            fork - 1,
        );
    }
}

/// The fields of a tuple are taken out, all but one, which is replaced.
proof fn lemma_runs_fields(
    world: World,
    before: LowerState,
    start: Machine,
    s: LowerState,
    machine: Machine,
    tuple: ValueId,
    field: usize,
    part: ValueId,
    n: nat,
) -> (end: Machine)
    requires
        execution::runs(world, before, start, s, machine),
        machine.held.contains_key(tuple) && machine.held[tuple] is Parts,
        n <= machine.held[tuple]->Parts_0.len() <= usize::MAX,
        machine.held.contains_key(part),
        model::lower_fields(s, tuple, field, part, n).0.code.values.len() <= usize::MAX,
    ensures
        execution::runs(world, before, start, model::lower_fields(s, tuple, field, part, n).0, end),
        execution::extends(machine.held, end.held),
        end.heap == machine.heap,
        ({
            let elements = model::lower_fields(s, tuple, field, part, n).1;
            &&& elements.len() == n
            &&& forall|i: int|
                0 <= i < n ==> holds(
                    end,
                    #[trigger] elements[i],
                    if i == field {
                        machine.held[part]
                    } else {
                        machine.held[tuple]->Parts_0[i]
                    },
                )
        }),
    decreases n,
{
    if n == 0 {
        machine
    } else {
        let (s1, elements) = model::lower_fields(s, tuple, field, part, (n - 1) as nat);
        let middle = lemma_runs_fields(
            world,
            before,
            start,
            s,
            machine,
            tuple,
            field,
            part,
            (n - 1) as nat,
        );
        if n - 1 == field {
            middle
        } else {
            let op = Opcode::TupleProj((n - 1) as usize);
            let operands = seq![tuple];
            let data = machine.held[tuple]->Parts_0[n - 1];
            let heap = machine.heap;
            assert(semantics::operand_data(middle.held, operands)[0] == machine.held[tuple]);
            execution::lemma_runs_value(
                world,
                before,
                start,
                s1,
                middle,
                op,
                operands,
                seq![],
                data,
                heap,
            );
            let end = execution::with_value(middle, s1.next(), data, heap);
            let all = model::lower_fields(s, tuple, field, part, n).1;
            assert forall|i: int| 0 <= i < n implies holds(
                end,
                #[trigger] all[i],
                if i == field {
                    machine.held[part]
                } else {
                    machine.held[tuple]->Parts_0[i]
                },
            ) by {
                if i < n - 1 {
                    assert(all[i] == elements[i]);
                }
            }
            end
        }
    }
}

pub proof fn lemma_runs_replace(
    world: World,
    before: LowerState,
    start: Machine,
    s: LowerState,
    machine: Machine,
    whole: ValueId,
    typ: ast::Type,
    path: Seq<AccessStep>,
    turns: Seq<Turn>,
    new_value: ValueId,
) -> (end: Machine)
    requires
        execution::runs(world, before, start, s, machine),
        machine.held.contains_key(whole),
        machine.held.contains_key(new_value),
        takes(machine.held, path, turns),
        leads(machine.held[whole], typ, turns),
        model::lower_replace(s, whole, typ, path, new_value) matches Some((after, _))
            && after.code.values.len() <= usize::MAX,
    ensures
        ({
            let (after, result) = model::lower_replace(s, whole, typ, path, new_value)->0;
            &&& execution::runs(world, before, start, after, end)
            &&& execution::extends(machine.held, end.held)
            &&& end.heap == machine.heap
            &&& holds(
                end,
                result,
                replaced(machine.held[whole], turns, machine.held[new_value]),
            )
        }),
    decreases path.len(),
{
    if path.len() == 0 {
        machine
    } else {
        let at = turns[0].position();
        let inner = model::part_type(typ, path[0])->0;
        let rest = path.drop_first();
        let more = turns.drop_first();
        let (s1, part) = model::lower_part(s, whole, path[0]);
        let heap = machine.heap;
        let whole_data = machine.held[whole];
        let part_data = whole_data.part(at)->0;
        let (get, operands) = match path[0] {
            AccessStep::Index(index) => (Opcode::ArrayGet, seq![whole, index]),
            AccessStep::Field(field) => (Opcode::TupleProj(field), seq![whole]),
        };
        let (s2, new_part) = model::lower_replace(s1, part, inner, rest, new_value)->0;
        stability::lemma_replace_adds(s1, part, inner, rest, new_value);
        if let (AccessStep::Field(field), ast::Type::Tuple(fields)) = (path[0], typ) {
            stability::lemma_fields_add(s2, whole, field, new_part, fields@.len());
        }
        execution::lemma_runs_value(
            world,
            before,
            start,
            s,
            machine,
            get,
            operands,
            seq![],
            part_data,
            heap,
        );
        let inside = execution::with_value(machine, part, part_data, heap);
        assert(takes(inside.held, rest, more)) by {
            assert forall|i: int| 0 <= i < rest.len() implies rest[i] == path[i + 1] && more[i]
                == turns[i + 1] by {}
        }
        let outside = lemma_runs_replace(
            world,
            before,
            start,
            s1,
            inside,
            part,
            inner,
            rest,
            more,
            new_value,
        );
        let new_part_data = replaced(part_data, more, machine.held[new_value]);
        let new_data = whole_data.with_part(at, new_part_data);
        match (path[0], typ) {
            (AccessStep::Field(field), ast::Type::Tuple(fields)) => {
                let n = fields@.len();
                assert(fields.len() == n);
                let (s3, elements) = model::lower_fields(s2, whole, field, new_part, n);
                let apart = lemma_runs_fields(
                    world,
                    before,
                    start,
                    s2,
                    outside,
                    whole,
                    field,
                    new_part,
                    n,
                );
                assert(semantics::operand_data(apart.held, elements) =~= new_data->Parts_0);
                execution::lemma_runs_value(
                    world,
                    before,
                    start,
                    s3,
                    apart,
                    Opcode::MkTuple,
                    elements,
                    type_converter::ssa_types(fields@),
                    new_data,
                    heap,
                );
                execution::with_value(apart, s3.next(), new_data, heap)
            },
            (AccessStep::Index(index), _) => {
                let set_operands = seq![whole, index, new_part];
                assert(semantics::operand_data(outside.held, set_operands) =~= seq![
                    whole_data,
                    machine.held[index],
                    new_part_data,
                ]);
                execution::lemma_runs_value(
                    world,
                    before,
                    start,
                    s2,
                    outside,
                    Opcode::ArraySet,
                    set_operands,
                    seq![],
                    new_data,
                    heap,
                );
                execution::with_value(outside, s2.next(), new_data, heap)
            },
            _ => outside,
        }
    }
}

/// Assigning to a part of a value makes the value that differs in that part and in nothing else,
/// however deep in arrays and tuples the part lies.
pub proof fn law_one_part_is_replaced(
    world: World,
    s: LowerState,
    whole: ValueId,
    typ: ast::Type,
    path: Seq<AccessStep>,
    turns: Seq<Turn>,
    new_value: ValueId,
    machine: Machine,
)
    requires
        s.code.has_block(s.current),
        s.has_all(machine),
        machine.held.contains_key(whole),
        machine.held.contains_key(new_value),
        takes(machine.held, path, turns),
        leads(machine.held[whole], typ, turns),
        model::lower_replace(s, whole, typ, path, new_value) matches Some((after, _))
            && after.code.values.len() <= usize::MAX,
    ensures
        ({
            let (after, result) = model::lower_replace(s, whole, typ, path, new_value)->0;
            execution::outcome(world, s, machine, after) matches Some(end) && holds(
                end,
                result,
                replaced(machine.held[whole], turns, machine.held[new_value]),
            )
        }),
{
    execution::lemma_runs_refl(world, s, machine);
    let end = lemma_runs_replace(world, s, machine, s, machine, whole, typ, path, turns, new_value);
    reveal(execution::runs);
}

/// What a cast makes of a number: to a narrower type the low bits are taken; to a wider one a
/// signed number is sign-extended. Both widths are in bits; a source without a width is no
/// number.
pub open spec fn cast_number(x: int, source: (usize, bool), bits: usize) -> int {
    if source.0 > 0 && bits < source.0 {
        x % pow2(bits as nat) as int
    } else if source.0 > 0 && source.1 && bits > source.0 {
        semantics::sign_extended(x, source.0 as nat, bits as nat)
    } else {
        x
    }
}

pub proof fn lemma_runs_cast(
    world: World,
    before: LowerState,
    start: Machine,
    s: LowerState,
    machine: Machine,
    value: ValueId,
    source: (usize, bool),
    target: (CastTarget, usize),
    x: int,
) -> (end: Machine)
    requires
        execution::runs(world, before, start, s, machine),
        model::lower_cast_value(s, value, source, target).0.code.values.len() <= usize::MAX,
        holds(machine, value, Data::Number(x)),
    ensures
        ({
            let (after, result) = model::lower_cast_value(s, value, source, target);
            &&& execution::runs(world, before, start, after, end)
            &&& execution::extends(machine.held, end.held)
            &&& end.heap == machine.heap
            &&& holds(end, result, Data::Number(cast_number(x, source, target.1)))
        }),
{
    let operands = seq![value];
    let cast = Opcode::Cast(target.0);
    let heap = machine.heap;
    assert(semantics::operand_data(machine.held, operands)[0] == Data::Number(x));
    if source.0 > 0 && (target.1 < source.0 || (source.1 && target.1 > source.0)) {
        let op = if target.1 < source.0 {
            Opcode::BitRange(0, target.1)
        } else {
            Opcode::Sext(source.0, target.1)
        };
        lemma2_to64();
        assert(x / pow2(0) as int == x);
        let data = Data::Number(cast_number(x, source, target.1));
        execution::lemma_runs_value(world, before, start, s, machine, op, operands, seq![], data, heap);
        let (s1, v) = s.value(op, operands, seq![]);
        let middle = execution::with_value(machine, v, data, heap);
        assert(semantics::operand_data(middle.held, seq![v])[0] == data);
        execution::lemma_runs_value(world, before, start, s1, middle, cast, seq![v], seq![], data, heap);
        execution::with_value(middle, s1.next(), data, heap)
    } else {
        let data = Data::Number(x);
        execution::lemma_runs_value(world, before, start, s, machine, cast, operands, seq![], data, heap);
        execution::with_value(machine, s.next(), data, heap)
    }
}

/// A cast to a narrower type keeps the low bits.
pub proof fn law_narrowing_casts_keep_the_low_bits(
    world: World,
    s: LowerState,
    value: ValueId,
    source: (usize, bool),
    target: (CastTarget, usize),
    machine: Machine,
    x: int,
)
    requires
        s.code.has_block(s.current),
        s.code.values.len() + 2 <= usize::MAX,
        s.has_all(machine),
        holds(machine, value, Data::Number(x)),
        target.1 < source.0,
    ensures
        ({
            let (after, result) = model::lower_cast_value(s, value, source, target);
            execution::outcome(world, s, machine, after) matches Some(end) && holds(
                end,
                result,
                Data::Number(x % pow2(target.1 as nat) as int),
            )
        }),
{
    execution::lemma_runs_refl(world, s, machine);
    let end = lemma_runs_cast(world, s, machine, s, machine, value, source, target, x);
    reveal(execution::runs);
}

/// A cast to a type that is no narrower keeps the number, signed or not.
pub proof fn law_widening_casts_keep_the_number(
    world: World,
    s: LowerState,
    value: ValueId,
    source: (usize, bool),
    target: (CastTarget, usize),
    machine: Machine,
    x: int,
)
    requires
        s.code.has_block(s.current),
        s.code.values.len() + 2 <= usize::MAX,
        s.has_all(machine),
        holds(machine, value, Data::Number(x)),
        0 < source.0 <= target.1,
        0 <= x < pow2(source.0 as nat),
    ensures
        ({
            let (after, result) = model::lower_cast_value(s, value, source, target);
            let kept = cast_number(x, source, target.1);
            &&& execution::outcome(world, s, machine, after) matches Some(end)
            &&& holds(end, result, Data::Number(kept))
            &&& source.1 ==> semantics::signed_value(kept, target.1 as nat)
                == semantics::signed_value(x, source.0 as nat)
            &&& !source.1 ==> kept == x
        }),
{
    execution::lemma_runs_refl(world, s, machine);
    let end = lemma_runs_cast(world, s, machine, s, machine, value, source, target, x);
    reveal(execution::runs);
    let from = source.0 as nat;
    let to = target.1 as nat;
    lemma_pow2_unfold(from);
    lemma_pow2_unfold(to);
    if from < to {
        lemma_pow2_strictly_increases(from, to);
        lemma_pow2_strictly_increases((from - 1) as nat, (to - 1) as nat);
    }
}

/// Where a number has both integer forms, they are one integer. Where it has the signed form
/// alone, it is negative.
pub proof fn law_the_forms_of_a_number_agree(number: ast::SignedField)
    requires
        number.valid(),
    ensures
        match (number.signed, number.unsigned) {
            (Some(signed), Some(unsigned)) => signed == unsigned,
            (Some(signed), None) => signed < 0,
            (None, Some(unsigned)) => unsigned > i128::MAX,
            (None, None) => true,
        },
{
    let (n, order) = choose|n: int, order: nat| number.is_number(n, order);
}

/// A signed literal that its type can hold is the number that its constant stands for.
pub proof fn law_signed_literals_are_exact(
    number: ast::SignedField,
    order: nat,
    n: int,
    size: ast::IntegerBitSize,
)
    requires
        number.is_number(n, order),
        size.bits() < 128,
        -pow2((size.bits() - 1) as nat) <= n < pow2((size.bits() - 1) as nat),
    ensures
        model::integer_constant(number, ast::Type::Integer(Signedness::Signed, size)) matches Some(
            ConstantView::I(bits, pattern),
        ) && bits == size.bits() && semantics::signed_value(pattern as int, bits as nat) == n,
{
    let bits = size.bits() as nat;
    lemma_pow2_unfold(bits);
    assert(pow2(bits) <= u128::MAX) by {
        lemma2_to64();
    }
    assert(pow2((bits - 1) as nat) <= i128::MAX) by {
        lemma2_to64();
    }
    if n >= 0 {
        vstd::arithmetic::div_mod::lemma_small_mod(n as nat, pow2(bits));
    } else {
        vstd::arithmetic::div_mod::lemma_small_mod((n + pow2(bits)) as nat, pow2(bits));
        vstd::arithmetic::div_mod::lemma_mod_add_multiples_vanish(n, pow2(bits) as int);
    }
}

/// An unsigned literal is its constant, to the last bit, though it be beyond the field.
pub proof fn law_unsigned_literals_are_exact(
    number: ast::SignedField,
    order: nat,
    n: int,
    size: ast::IntegerBitSize,
)
    requires
        number.is_number(n, order),
        0 <= n <= u128::MAX,
    ensures
        model::integer_constant(number, ast::Type::Integer(Signedness::Unsigned, size)) == Some(
            ConstantView::U(size.bits(), n as u128),
        ),
{
}

/// A field literal is the number itself, where the source field is no larger than bn254's and
/// holds the number.
pub proof fn law_field_literals_are_exact(number: ast::SignedField, order: nat, n: int)
    requires
        number.is_number(n, order),
        0 <= n < order <= field::modulus(),
    ensures
        model::integer_constant(number, ast::Type::Field) == Some(ConstantView::Field(n as nat)),
{
    vstd::arithmetic::div_mod::lemma_small_mod(n as nat, order);
    vstd::arithmetic::div_mod::lemma_small_mod(n as nat, field::modulus());
}

/// The constant that an integer literal is does not depend on the field in which the literal was
/// given: it is the same for every source field that gives the same number.
pub proof fn law_integer_literals_do_not_depend_on_the_field(
    a: ast::SignedField,
    a_order: nat,
    b: ast::SignedField,
    b_order: nat,
    n: int,
    typ: ast::Type,
)
    requires
        a.is_number(n, a_order),
        b.is_number(n, b_order),
        !(typ is Field),
    ensures
        model::integer_constant(a, typ) == model::integer_constant(b, typ),
{
}

/// A cast starts from the width in which the value that is cast was made, where what is cast
/// carries its type.
pub proof fn law_casts_start_from_the_width_of_the_value(e: Expression)
    requires
        e.is_typed(),
    ensures
        match e.kind {
            ExpressionKind::Ident(ident) => model::cast_source(e.return_type)
                == model::cast_source(Some(ident.typ)),
            ExpressionKind::Cast(cast) => model::cast_target(cast.typ) matches Some((_, width))
                ==> model::cast_source(e.return_type).0 == width,
            ExpressionKind::Binary(binary) => if binary.operator.is_comparison() {
                model::cast_source(e.return_type) == (1usize, false)
            } else {
                model::cast_source(e.return_type) == model::cast_source(binary.lhs.return_type)
            },
            ExpressionKind::Literal(Literal::Bool(_)) => model::cast_source(e.return_type) == (
                1usize,
                false,
            ),
            ExpressionKind::Literal(Literal::Integer(number, typ)) => {
                match model::integer_constant(number, typ) {
                    Some(ConstantView::U(width, _)) => model::cast_source(e.return_type) == (
                        width,
                        false,
                    ),
                    Some(ConstantView::I(width, _)) => model::cast_source(e.return_type) == (
                        width,
                        true,
                    ),
                    _ => true,
                }
            },
            _ => true,
        },
{
}

/// What carries its type and has a value has a type.
pub proof fn law_typed_values_have_types(env: LowerEnv, s: LowerState, e: Expression)
    requires
        e.is_typed(),
        model::lower_value(env, s, e) is Some,
    ensures
        e.return_type is Some,
    decreases e,
{
    let lowered = model::lower(env, s, e);
    match e.kind {
        ExpressionKind::Block(exprs) => {
            let n = exprs@.len();
            if n > 0 {
                let last = exprs@[n - 1];
                let whole = model::lower_block(env, s, exprs@, n);
                if let Some((s1, _)) = model::lower_block(env, s, exprs@, (n - 1) as nat) {
                    assert(lowered == whole);
                    assert(whole == model::lower(env, s1, last));
                    assert(decreases_to!(e => last));
                    law_typed_values_have_types(env, s1, last);
                }
            } else {
                assert(model::lower_block(env, s, exprs@, 0) == Some((s, None::<ValueId>)));
            }
        },
        ExpressionKind::Binary(binary) => {
            if !binary.operator.is_comparison() {
                assert(model::lower_binary(env, s, binary) is Some);
                assert(model::lower_value(env, s, *binary.lhs) is Some);
                law_typed_values_have_types(env, s, *binary.lhs);
            }
        },
        ExpressionKind::Clone(inner) => {
            assert(model::lower_value(env, s, *inner) is Some);
            law_typed_values_have_types(env, s, *inner);
        },
        ExpressionKind::Let(binding) => {
            assert(model::lower_let(env, s, binding) matches Some((_, r)) ==> r is None);
        },
        ExpressionKind::Constrain(inner) => {
            assert(model::lower_constrain(env, s, *inner) matches Some((_, r)) ==> r is None);
        },
        ExpressionKind::Assign(assign) => {
            assert(model::lower_assign(env, s, assign) matches Some((_, r)) ==> r is None);
        },
        ExpressionKind::For(for_expr) => {
            assert(model::lower_for(env, s, for_expr) matches Some((_, r)) ==> r is None);
        },
        ExpressionKind::While(while_expr) => {
            assert(model::lower_while(env, s, while_expr) matches Some((_, r)) ==> r is None);
        },
        ExpressionKind::Loop(body) => {
            assert(model::lower_loop(env, s, *body) matches Some((_, r)) ==> r is None);
        },
        _ => {},
    }
}

/// A tuple whose fields carry their types and have values has code: it does not fail for want of
/// a field's type.
pub proof fn law_tuples_of_typed_values_have_code(
    env: LowerEnv,
    s: LowerState,
    exprs: Vec<Expression>,
)
    requires
        forall|i: int| 0 <= i < exprs@.len() ==> (#[trigger] exprs@[i]).is_typed(),
        model::lower_values(env, s, exprs@, exprs@.len()) is Some,
    ensures
        model::lower_tuple(env, s, exprs) is Some,
{
    assert forall|i: int| 0 <= i < exprs@.len() implies model::field_type(
        #[trigger] exprs@[i],
    ) is Some by {
        expression_converter::lemma_values_prefix(env, s, exprs@, (i + 1) as nat, exprs@.len());
        let (s1, _) = model::lower_values(env, s, exprs@, i as nat)->0;
        law_typed_values_have_types(env, s1, exprs@[i]);
    }
}

/// A condition that is decided when the code is made has, wherever the program runs, the truth
/// value that was decided on, and finding it changes nothing. What is decided are the conditions
/// that rest on nothing but whether the function is unconstrained, and no others: a condition that
/// reads a variable, calls a function or compares is left to the code.
pub proof fn law_decided_conditions_have_that_truth_value(
    env: LowerEnv,
    world: World,
    scope: meaning::Scope,
    e: Expression,
)
    ensures
        model::const_bool(env, e) is Some <==> meaning::is_known(e),
        model::const_bool(env, e) matches Some(b) ==> meaning::value_meaning(env, world, scope, e)
            == Some((scope, semantics::truth(b))),
    decreases e,
{
    match e.kind {
        ExpressionKind::Unary(unary) => {
            law_decided_conditions_have_that_truth_value(env, world, scope, *unary.rhs);
            assert(meaning::meaning(env, world, scope, e) == meaning::unary_meaning(
                env,
                world,
                scope,
                unary,
            ));
        },
        ExpressionKind::Call(call) => {
            assert(meaning::meaning(env, world, scope, e) == meaning::call_meaning(
                env,
                world,
                scope,
                call,
            ));
            if meaning::asks_unconstrained(call) {
                forms::lemma_builtin_names();
                assert(meaning::call_meaning(env, world, scope, call) == meaning::builtin_meaning(
                    env,
                    world,
                    scope,
                    "is_unconstrained"@,
                    call,
                ));
            }
        },
        _ => {},
    }
}

/// Where the condition of an `if` is known, its code is that of the branch that is taken; the
/// other branch leaves no trace.
pub proof fn law_known_conditions_leave_one_branch(
    env: LowerEnv,
    s: LowerState,
    e: Expression,
    if_expr: If,
    known: bool,
)
    requires
        e.kind == ExpressionKind::If(if_expr),
        model::const_bool(env, *if_expr.condition) == Some(known),
    ensures
        known ==> model::lower(env, s, e) == model::lower(env, s, *if_expr.consequence),
        !known ==> model::lower(env, s, e) == match if_expr.alternative {
            Some(alternative) => model::lower(env, s, *alternative),
            None => Some((s, None)),
        },
{
    reveal_with_fuel(model::lower, 3);
}

/// `break` goes to where the innermost loop ends. What follows it goes to a block of its own,
/// which is new and empty.
pub proof fn law_break_leaves_the_innermost_loop(env: LowerEnv, s: LowerState, e: Expression)
    requires
        e.kind is Break,
        s.well_formed(),
        s.code.blocks.len() < usize::MAX,
        s.loops.len() > 0,
    ensures
        model::lower(env, s, e) matches Some((after, None)) && {
            &&& after.code.blocks[s.current.0 as int].terminator == Some(
                TerminatorView::Jmp(s.loops.last().exit_block, seq![]),
            )
            &&& after.current.0 == s.code.blocks.len()
            &&& after.code.blocks.last() == (BlockView {
                parameters: seq![],
                instructions: seq![],
                terminator: None,
            })
            &&& after.loops == s.loops
        },
{
}

/// `continue` goes to where the innermost loop starts its next round, which for a `for` loop is
/// with the index advanced by one. What follows it goes to a block of its own.
pub proof fn law_continue_starts_the_next_round(env: LowerEnv, s: LowerState, e: Expression)
    requires
        e.kind is Continue,
        s.well_formed(),
        s.code.blocks.len() < usize::MAX,
        s.loops.len() > 0,
    ensures
        ({
            let inner = s.loops.last();
            let at = s.current.0 as int;
            &&& model::lower(env, s, e) matches Some((after, None))
            &&& after.current.0 == s.code.blocks.len()
            &&& after.loops == s.loops
            &&& match inner.for_loop_index {
                None => after.code.blocks[at].terminator == Some(
                    TerminatorView::Jmp(inner.loop_header, seq![]),
                ),
                Some((index, bits)) => {
                    let (s1, next) = s.next_index(index, bits);
                    &&& after.code.values == s1.code.values
                    &&& after.code.blocks[at].instructions == s1.code.blocks[at].instructions
                    &&& after.code.blocks[at].terminator == Some(
                        TerminatorView::Jmp(inner.loop_header, seq![next]),
                    )
                },
            }
        }),
{
}

/// What is done after a local was bound.
pub enum Since {
    /// Another local bound to a value.
    Bound(LocalId, ValueId),
    /// Another local bound as mutable, with its first value and the type of that.
    BoundMut(LocalId, ValueId, TypeView),
    /// The code of an expression added.
    Converted(Expression),
}

/// The state after the first `n` things that were done. `None` if one of the expressions has no
/// code.
pub open spec fn since(env: LowerEnv, s: LowerState, done: Seq<Since>, n: nat) -> Option<LowerState>
    decreases n,
{
    if n == 0 {
        Some(s)
    } else {
        match since(env, s, done, (n - 1) as nat) {
            None => None,
            Some(before) => match done[n - 1] {
                Since::Bound(local, value) => Some(before.bind(local, value)),
                Since::BoundMut(local, value, typ) => Some(before.bind_mut(local, value, typ)),
                Since::Converted(e) => match model::lower(env, before, e) {
                    Some((after, _)) => Some(after),
                    None => None,
                },
            },
        }
    }
}

/// What is done binds a local.
pub open spec fn binds_local(step: Since, local: LocalId) -> bool {
    match step {
        Since::Bound(bound, _) => bound == local,
        Since::BoundMut(bound, _, _) => bound == local,
        Since::Converted(e) => meaning::binds(e, local.0),
    }
}

/// A local that is bound to a value, was never bound as mutable and is not bound again reads as
/// that value, whatever else is bound and converted meanwhile. Reading it adds no code and leaves
/// the current block as it is.
pub proof fn law_bound_locals_read_as_their_values(
    env: LowerEnv,
    s: LowerState,
    local: LocalId,
    value: ValueId,
    done: Seq<Since>,
    ident: Ident,
)
    requires
        s.code.has_block(s.current),
        !s.mutable_locals.contains(local.0),
        forall|i: int| 0 <= i < done.len() ==> !binds_local(#[trigger] done[i], local),
        ident.definition == Definition::Local(local),
    ensures
        since(env, s.bind(local, value), done, done.len()) matches Some(after)
            ==> model::lower_ident(env, after, ident) == Some((after, Some(value))),
{
    lemma_binding_stays(env, s.bind(local, value), done, done.len(), local);
}

proof fn lemma_binding_stays(
    env: LowerEnv,
    s: LowerState,
    done: Seq<Since>,
    n: nat,
    local: LocalId,
)
    requires
        n <= done.len(),
        s.code.has_block(s.current),
        forall|i: int| 0 <= i < done.len() ==> !binds_local(#[trigger] done[i], local),
    ensures
        since(env, s, done, n) matches Some(after) ==> after.code.has_block(after.current)
            && stability::same_local(s, after, local.0),
    decreases n,
{
    if n > 0 && since(env, s, done, n) is Some {
        lemma_binding_stays(env, s, done, (n - 1) as nat, local);
        let before = since(env, s, done, (n - 1) as nat)->0;
        assert(!binds_local(done[n - 1], local));
        stability::lemma_kept_refl(before);
        match done[n - 1] {
            Since::Bound(_, _) => {},
            Since::BoundMut(bound, value, typ) => {
                stability::lemma_kept_bind_mut(before, before, bound, value, typ);
            },
            Since::Converted(e) => {
                frame::lemma_lower_kept(before, env, before, e, local.0);
            },
        }
        reveal(stability::kept);
    }
}

} // verus!
