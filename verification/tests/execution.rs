//! Converted code, run by a small machine.

use std::collections::{HashMap, HashSet};

use mavros_compiler::ast::{
    ArrayLiteral, Assign, Binary, BinaryOpKind, Call, Cast, Definition, Expression, ExpressionKind,
    For, Ident, If, Index, IntegerBitSize, LValue, Let, Literal, LocalId, SignedField, Signedness,
    Type, Unary, UnaryOp, While,
};
use mavros_compiler::field::FieldElement;
use mavros_compiler::lowering::expression_converter::ExpressionConverter;
use mavros_compiler::ssa::builder::HLFunctionBuilder;
use mavros_compiler::ssa::hlssa::{BinaryOp, Constant, Opcode, Terminator, ValueDef};
use mavros_compiler::text_map::TextMap;

#[derive(Clone, Debug, PartialEq, Eq)]
enum Data {
    Number(u128),
    Pointer(usize),
    Parts(Vec<Data>),
}

use Data::{Number, Parts, Pointer};

fn number_of(data: &Data) -> u128 {
    match data {
        Number(n) => *n,
        other => panic!("{other:?} is no number"),
    }
}

fn parts_of(data: &Data) -> Vec<Data> {
    match data {
        Parts(parts) => parts.clone(),
        other => panic!("{other:?} has no parts"),
    }
}

fn address_of(data: &Data) -> usize {
    match data {
        Pointer(address) => *address,
        other => panic!("{other:?} is no pointer"),
    }
}

/// Converts an expression and runs its code, from block to block. `None` if an assertion does not hold; otherwise the
/// value of the expression, if it has one.
fn run(e: &Expression) -> Option<Option<Data>> {
    let functions = HashMap::new();
    let unconstrained = HashSet::new();
    let slots = HashMap::new();
    let replacements = TextMap::new();
    let mut builder = HLFunctionBuilder::new();
    let entry = builder.add_block();
    let mut converter = ExpressionConverter::new_with_globals(
        &functions,
        &unconstrained,
        false,
        &slots,
        &replacements,
        entry,
    );
    let result = converter.convert_expression(e, &mut builder);
    let last = converter.current_block();
    let mut held: HashMap<usize, Data> = HashMap::new();
    for (v, def) in builder.values().iter().enumerate() {
        if let ValueDef::Constant(Constant::U(_, n) | Constant::I(_, n)) = def {
            held.insert(v, Number(*n));
        }
    }
    let mut heap: Vec<Option<Data>> = vec![];
    let mut at = (entry, 0);
    loop {
        let block = &builder.blocks()[at.0.0];
        let Some(instruction) = block.instructions.get(at.1) else {
            let (target, args) = match &block.terminator {
                None => break,
                Some(Terminator::Jmp(target, args)) => (*target, args.clone()),
                Some(Terminator::JmpIf(cond, then_block, else_block)) => match held[&cond.0] {
                    Number(0) => (*else_block, vec![]),
                    Number(1) => (*then_block, vec![]),
                    ref other => panic!("{other:?} is no truth value"),
                },
            };
            let data: Vec<Data> = args.iter().map(|v| held[&v.0].clone()).collect();
            let parameters = &builder.blocks()[target.0].parameters;
            assert_eq!(parameters.len(), data.len());
            for (parameter, data) in parameters.iter().zip(data) {
                held.insert(parameter.0.0, data);
            }
            at = (target, 0);
            continue;
        };
        at.1 += 1;
        let x: Vec<Data> = instruction.operands.iter().map(|v| held[&v.0].clone()).collect();
        let data = match instruction.op {
            Opcode::Binary(BinaryOp::Add) => Number(number_of(&x[0]) + number_of(&x[1])),
            Opcode::Binary(BinaryOp::Eq) => Number((x[0] == x[1]) as u128),
            Opcode::Binary(BinaryOp::Lt) => Number((number_of(&x[0]) < number_of(&x[1])) as u128),
            Opcode::Not => Number(1 - number_of(&x[0])),
            Opcode::BitRange(0, bits) => Number(number_of(&x[0]) % (1 << bits)),
            Opcode::Sext(from, to) => {
                let n = number_of(&x[0]);
                Number(if n < 1 << (from - 1) { n } else { n + (1 << to) - (1 << from) })
            }
            Opcode::Cast(_) => x[0].clone(),
            Opcode::MkTuple | Opcode::MkSeq(_) => Parts(x),
            Opcode::TupleProj(field) => parts_of(&x[0])[field].clone(),
            Opcode::ArrayGet => parts_of(&x[0])[number_of(&x[1]) as usize].clone(),
            Opcode::ArraySet => {
                let mut parts = parts_of(&x[0]);
                parts[number_of(&x[1]) as usize] = x[2].clone();
                Parts(parts)
            }
            Opcode::Alloc => {
                heap.push(None);
                Pointer(heap.len() - 1)
            }
            Opcode::Load => heap[address_of(&x[0])].clone().unwrap(),
            Opcode::Store => {
                heap[address_of(&x[0])] = Some(x[1].clone());
                continue;
            }
            Opcode::AssertBool => {
                if x[0] != Number(1) {
                    return None;
                }
                continue;
            }
            Opcode::AssertEq => {
                if x[0] != x[1] {
                    return None;
                }
                continue;
            }
            other => panic!("{other:?} is not known"),
        };
        held.insert(instruction.results[0].0, data);
    }
    assert_eq!(at.0, last);
    Some(result.map(|v| held[&v.0].clone()))
}

fn int_type(signedness: Signedness, size: IntegerBitSize) -> Type {
    Type::Integer(signedness, size)
}

fn byte() -> Type {
    int_type(Signedness::Unsigned, IntegerBitSize::Eight)
}

fn pair() -> Type {
    Type::Tuple(vec![byte(), byte()])
}

fn expr(kind: ExpressionKind, typ: Type) -> Expression {
    Expression { kind, return_type: Some(typ) }
}

fn stmt(kind: ExpressionKind) -> Expression {
    Expression { kind, return_type: None }
}

fn literal(n: i128, typ: fn() -> Type) -> Expression {
    let number = SignedField {
        field_element: FieldElement { le_bytes: vec![] },
        signed: Some(n),
        unsigned: if n < 0 { None } else { Some(n as u128) },
    };
    expr(ExpressionKind::Literal(Literal::Integer(number, typ())), typ())
}

fn number(n: i128) -> Expression {
    literal(n, byte)
}

fn ident(id: u32, typ: Type) -> Ident {
    Ident { definition: Definition::Local(LocalId(id)), typ }
}

fn local(id: u32, typ: fn() -> Type) -> Expression {
    expr(ExpressionKind::Ident(ident(id, typ())), typ())
}

fn bind(id: u32, mutable: bool, expression: Expression) -> Expression {
    stmt(ExpressionKind::Let(Let { id: LocalId(id), mutable, expression: Box::new(expression) }))
}

fn binary(lhs: Expression, operator: BinaryOpKind, rhs: Expression) -> Expression {
    let parts = Binary { lhs: Box::new(lhs), operator, rhs: Box::new(rhs) };
    expr(ExpressionKind::Binary(parts), Type::Bool)
}

fn constrain(inner: Expression) -> Expression {
    stmt(ExpressionKind::Constrain(Box::new(inner)))
}

fn block(exprs: Vec<Expression>) -> Expression {
    stmt(ExpressionKind::Block(exprs))
}

fn pairs() -> Type {
    Type::Array(2, Box::new(pair()))
}

/// `[(10, 11), (20, 21)]`
fn two_pairs() -> Expression {
    let contents = [(10, 11), (20, 21)]
        .iter()
        .map(|(a, b)| expr(ExpressionKind::Tuple(vec![number(*a), number(*b)]), pair()))
        .collect();
    expr(ExpressionKind::Literal(Literal::Array(ArrayLiteral { contents, typ: pairs() })), pairs())
}

#[test]
fn comparisons_say_what_they_should() {
    let operators: [(BinaryOpKind, fn(&i128, &i128) -> bool); 6] = [
        (BinaryOpKind::Equal, i128::eq),
        (BinaryOpKind::NotEqual, i128::ne),
        (BinaryOpKind::Less, i128::lt),
        (BinaryOpKind::LessEqual, i128::le),
        (BinaryOpKind::Greater, i128::gt),
        (BinaryOpKind::GreaterEqual, i128::ge),
    ];
    for (operator, expected) in operators {
        for (x, y) in [(3, 4), (4, 4), (5, 4)] {
            let e = binary(number(x), operator, number(y));
            assert_eq!(run(&e), Some(Some(Number(expected(&x, &y) as u128))));
        }
    }
}

/// `let mut v = [(10, 11), (20, 21)]; v[1].0 = 99; v`
#[test]
fn only_the_assigned_part_changes() {
    let element = LValue::Index {
        array: Box::new(LValue::Ident(ident(0, pairs()))),
        index: Box::new(number(1)),
    };
    let lvalue = LValue::MemberAccess { object: Box::new(element), field_index: 0 };
    let e = block(vec![
        bind(0, true, two_pairs()),
        stmt(ExpressionKind::Assign(Assign { lvalue, expression: Box::new(number(99)) })),
        local(0, pairs),
    ]);
    let expected = Parts(vec![
        Parts(vec![Number(10), Number(11)]),
        Parts(vec![Number(99), Number(21)]),
    ]);
    assert_eq!(run(&e), Some(Some(expected)));
}

/// `let mut x = 1; let r = &mut x; *r = 7; x`
#[test]
fn references_reach_the_variable() {
    let reference = || Type::Reference(Box::new(byte()), true);
    let operator = UnaryOp::Reference;
    let unary = Unary { operator, rhs: Box::new(local(0, byte)), skip: false };
    let lvalue = LValue::Dereference {
        reference: Box::new(LValue::Ident(ident(1, reference()))),
        element_type: byte(),
    };
    let e = block(vec![
        bind(0, true, number(1)),
        bind(1, false, expr(ExpressionKind::Unary(unary), reference())),
        stmt(ExpressionKind::Assign(Assign { lvalue, expression: Box::new(number(7)) })),
        local(0, byte),
    ]);
    assert_eq!(run(&e), Some(Some(Number(7))));
}

#[test]
fn elements_and_fields_are_found() {
    let index = Index { collection: Box::new(two_pairs()), index: Box::new(number(1)) };
    let element = expr(ExpressionKind::Index(index), pair());
    let field = expr(ExpressionKind::ExtractTupleField(Box::new(element), 1), byte());
    assert_eq!(run(&field), Some(Some(Number(21))));
}

#[test]
fn casts_keep_what_they_can() {
    let i8_type = || int_type(Signedness::Signed, IntegerBitSize::Eight);
    let u16_type = || int_type(Signedness::Unsigned, IntegerBitSize::Sixteen);
    let cast = |n, from, typ| {
        let cast = Cast { lhs: Box::new(literal(n, from)), typ };
        run(&expr(ExpressionKind::Cast(cast), Type::Field)).unwrap().unwrap()
    };
    assert_eq!(cast(0x1234, u16_type, byte()), Number(0x34));
    assert_eq!(cast(200, byte, u16_type()), Number(200));
    let i16_type = int_type(Signedness::Signed, IntegerBitSize::Sixteen);
    assert_eq!(cast(-2, i8_type, i16_type), Number(0xfffe));
    let i16_type = int_type(Signedness::Signed, IntegerBitSize::Sixteen);
    assert_eq!(cast(5, i8_type, i16_type), Number(5));
}

#[test]
fn assertions_stop_the_code_when_they_fail() {
    let holds = constrain(binary(number(3), BinaryOpKind::LessEqual, number(3)));
    let fails = constrain(binary(number(3), BinaryOpKind::NotEqual, number(3)));
    assert_eq!(run(&block(vec![holds, number(8)])), Some(Some(Number(8))));
    assert_eq!(run(&block(vec![fails, number(8)])), None);
}

fn sum(lhs: Expression, rhs: Expression) -> Expression {
    let parts = Binary { lhs: Box::new(lhs), operator: BinaryOpKind::Add, rhs: Box::new(rhs) };
    expr(ExpressionKind::Binary(parts), byte())
}

fn assign(id: u32, expression: Expression) -> Expression {
    let lvalue = LValue::Ident(ident(id, byte()));
    stmt(ExpressionKind::Assign(Assign { lvalue, expression: Box::new(expression) }))
}

fn if_else(
    condition: Expression,
    consequence: Expression,
    alternative: Option<Expression>,
    typ: Type,
) -> Expression {
    stmt(ExpressionKind::If(If {
        condition: Box::new(condition),
        consequence: Box::new(consequence),
        alternative: alternative.map(Box::new),
        typ,
    }))
}

/// `if x == n { then }`
fn when(x: u32, n: i128, then: ExpressionKind) -> Expression {
    if_else(
        binary(local(x, byte), BinaryOpKind::Equal, number(n)),
        stmt(then),
        None,
        Type::Unit,
    )
}

/// `let mut x0 = 0; for x1 in 0..end { body }; x0`
fn counting(end: i128, inclusive: bool, body: Vec<Expression>) -> Expression {
    let count = For {
        index_variable: LocalId(1),
        index_type: byte(),
        start_range: Box::new(number(0)),
        end_range: Box::new(number(end)),
        inclusive,
        block: Box::new(block(body)),
    };
    block(vec![bind(0, true, number(0)), stmt(ExpressionKind::For(count)), local(0, byte)])
}

fn add_index() -> Expression {
    assign(0, sum(local(0, byte), local(1, byte)))
}

#[test]
fn the_branch_that_is_taken_gives_the_value() {
    for (x, expected) in [(3, 11), (5, 25)] {
        let condition = binary(local(0, byte), BinaryOpKind::Less, number(4));
        let then = block(vec![bind(2, false, number(10)), sum(local(2, byte), number(1))]);
        let otherwise = block(vec![bind(3, true, number(20)), sum(local(3, byte), local(0, byte))]);
        let e = block(vec![
            bind(0, false, number(x)),
            bind(1, false, if_else(condition, then, Some(otherwise), byte())),
            local(1, byte),
        ]);
        assert_eq!(run(&e), Some(Some(Number(expected))));
    }
}

#[test]
fn for_loops_make_their_rounds() {
    assert_eq!(run(&counting(4, false, vec![add_index()])), Some(Some(Number(6))));
    assert_eq!(run(&counting(4, true, vec![add_index()])), Some(Some(Number(10))));
    assert_eq!(run(&counting(0, false, vec![add_index()])), Some(Some(Number(0))));
}

#[test]
fn rounds_are_left_by_break_and_continue() {
    let body = || {
        vec![
            when(1, 2, ExpressionKind::Continue),
            when(1, 5, ExpressionKind::Break),
            add_index(),
        ]
    };
    assert_eq!(run(&counting(10, false, body())), Some(Some(Number(8))));
    assert_eq!(run(&counting(3, false, body())), Some(Some(Number(1))));
}

/// `let mut x = 1; while x < 20 { x = x + x }; x`
#[test]
fn while_loops_go_on_as_long_as_the_condition_holds() {
    let doubled = While {
        condition: Box::new(binary(local(0, byte), BinaryOpKind::Less, number(20))),
        body: Box::new(assign(0, sum(local(0, byte), local(0, byte)))),
    };
    let e = block(vec![
        bind(0, true, number(1)),
        stmt(ExpressionKind::While(doubled)),
        local(0, byte),
    ]);
    assert_eq!(run(&e), Some(Some(Number(32))));
}

/// `let mut x = 0; loop { if x == 3 { break }; x = x + 1 }; x`
#[test]
fn loops_go_on_until_they_are_broken() {
    let body = block(vec![
        when(0, 3, ExpressionKind::Break),
        assign(0, sum(local(0, byte), number(1))),
    ]);
    let e = block(vec![
        bind(0, true, number(0)),
        stmt(ExpressionKind::Loop(Box::new(body))),
        local(0, byte),
    ]);
    assert_eq!(run(&e), Some(Some(Number(3))));
}

#[test]
fn builtins_assert_and_measure() {
    let call = |name: &str, arguments: Vec<Expression>, return_type: fn() -> Type| {
        let definition = Definition::Builtin(name.to_string());
        let func = Ident { definition, typ: Type::Function };
        let func = Box::new(expr(ExpressionKind::Ident(func), Type::Function));
        expr(
            ExpressionKind::Call(Call { func, arguments, return_type: return_type() }),
            return_type(),
        )
    };
    let equal = |a, b| call("assert_eq", vec![number(a), number(b)], || Type::Unit);
    assert_eq!(run(&equal(4, 4)), Some(None));
    assert_eq!(run(&equal(4, 5)), None);
    let holds = call("static_assert", vec![number(1), number(0)], || Type::Unit);
    assert_eq!(run(&holds), Some(None));
    assert_eq!(run(&call("array_len", vec![two_pairs()], byte)), Some(Some(Number(2))));
    assert_eq!(run(&call("is_unconstrained", vec![], || Type::Bool)), Some(Some(Number(0))));
}
