//! The code that expressions are converted to.

use std::collections::{HashMap, HashSet};

use mavros_compiler::ast::{
    ArrayLiteral, Assign, Binary, BinaryOpKind, Call, Cast, Definition, Expression, ExpressionKind,
    FmtStrFragment, For, FuncId, GlobalId, Ident, If, Index, IntegerBitSize, LValue, Let, Literal,
    LocalId, SignedField, Signedness, Type, Unary, UnaryOp, While,
};
use mavros_compiler::field::{Field, FieldElement};
use mavros_compiler::lowering::expression_converter::ExpressionConverter;
use mavros_compiler::lowering::replacement::LowLevelReplacement;
use mavros_compiler::ssa::builder::HLFunctionBuilder;
use mavros_compiler::ssa::hlssa;
use mavros_compiler::ssa::hlssa::{
    BinaryOp, Block, BlockId, CastTarget, Constant, Endianness, FunctionId, Opcode,
    SequenceTargetType, Terminator, ValueDef, ValueId,
};
use mavros_compiler::text_map::TextMap;

/// What a conversion is given.
struct Setup {
    functions: HashMap<u32, FunctionId>,
    unconstrained: HashSet<u32>,
    in_unconstrained: bool,
    slots: HashMap<u32, usize>,
    replacements: TextMap<LowLevelReplacement>,
}

/// What a conversion made.
struct Done {
    builder: HLFunctionBuilder,
    result: Option<ValueId>,
    current: BlockId,
}

impl Setup {
    fn new() -> Setup {
        let mut replacements = TextMap::new();
        let sizes = HashMap::from([(2, FuncId(5)), (3, FuncId(6))]);
        replacements.insert("hash".to_string(), LowLevelReplacement::ByArraySize(sizes));
        replacements.insert("less".to_string(), LowLevelReplacement::Single(FuncId(7)));
        Setup {
            functions: HashMap::from([
                (4, FunctionId(40)),
                (5, FunctionId(50)),
                (6, FunctionId(60)),
                (7, FunctionId(70)),
            ]),
            unconstrained: HashSet::from([4]),
            in_unconstrained: false,
            slots: HashMap::from([(3, 33)]),
            replacements,
        }
    }

    /// A function whose parameters are the locals 0 and 1, immutable, and 2, mutable. They are the
    /// values 0, 1 and 2; the pointer to the last is value 3.
    fn start(&self) -> (HLFunctionBuilder, ExpressionConverter<'_>) {
        let mut builder = HLFunctionBuilder::new();
        let entry = builder.add_block();
        let mut converter = ExpressionConverter::new_with_globals(
            &self.functions,
            &self.unconstrained,
            self.in_unconstrained,
            &self.slots,
            &self.replacements,
            entry,
        );
        let parameters: Vec<ValueId> =
            (0..3).map(|_| builder.add_parameter(entry, hlssa::Type::U(32))).collect();
        converter.bind_local(LocalId(0), parameters[0]);
        converter.bind_local(LocalId(1), parameters[1]);
        converter.bind_local_mut(LocalId(2), parameters[2], hlssa::Type::U(32), &mut builder);
        (builder, converter)
    }

    /// Whether an expression has code.
    fn admits(&self, e: &Expression) -> bool {
        let (builder, converter) = self.start();
        converter.can_convert(e, &builder)
    }

    /// Converts an expression.
    fn convert(&self, e: &Expression) -> Done {
        let (mut builder, mut converter) = self.start();
        assert!(converter.can_convert(e, &builder));
        let result = converter.convert_expression(e, &mut builder);
        Done { builder, result, current: converter.current_block() }
    }
}

impl Done {
    fn block(&self, i: usize) -> &Block {
        &self.builder.blocks()[i]
    }

    /// The instructions of a block: what each does, and with which values. The first block
    /// starts with what binds the parameters, which is left out.
    fn code(&self, i: usize) -> Vec<(Opcode, Vec<usize>)> {
        let skipped = if i == 0 { 2 } else { 0 };
        self.block(i).instructions[skipped..]
            .iter()
            .map(|x| (x.op, x.operands.iter().map(|v| v.0).collect()))
            .collect()
    }

    /// The constants, each with its value.
    fn constants(&self) -> Vec<(usize, Constant)> {
        let mut constants = vec![];
        for (i, value) in self.builder.values().iter().enumerate() {
            if let ValueDef::Constant(constant) = value {
                constants.push((i, *constant));
            }
        }
        constants
    }

    fn jump(&self, i: usize) -> (usize, Vec<usize>) {
        match &self.block(i).terminator {
            Some(Terminator::Jmp(to, args)) => (to.0, args.iter().map(|v| v.0).collect()),
            other => panic!("block {i} ends with {other:?}"),
        }
    }

    fn branch(&self, i: usize) -> (usize, usize, usize) {
        match &self.block(i).terminator {
            Some(Terminator::JmpIf(cond, then_block, else_block)) => {
                (cond.0, then_block.0, else_block.0)
            }
            other => panic!("block {i} ends with {other:?}"),
        }
    }

    fn is_open(&self, i: usize) -> bool {
        self.block(i).terminator.is_none()
    }
}

fn convert(e: &Expression) -> Done {
    Setup::new().convert(e)
}

fn u(size: IntegerBitSize) -> Type {
    Type::Integer(Signedness::Unsigned, size)
}

fn i(size: IntegerBitSize) -> Type {
    Type::Integer(Signedness::Signed, size)
}

fn u32_type() -> Type {
    u(IntegerBitSize::ThirtyTwo)
}

fn expr(kind: ExpressionKind, typ: Type) -> Expression {
    Expression { kind, return_type: Some(typ) }
}

fn stmt(kind: ExpressionKind) -> Expression {
    Expression { kind, return_type: None }
}

fn number(n: i128, typ: Type) -> Literal {
    let literal = SignedField {
        field_element: FieldElement { le_bytes: (n as u64).to_le_bytes().to_vec() },
        signed: Some(n),
        unsigned: if n < 0 { None } else { Some(n as u128) },
    };
    Literal::Integer(literal, typ)
}

fn integer(n: i128) -> Expression {
    expr(ExpressionKind::Literal(number(n, u32_type())), u32_type())
}

fn literal(literal: Literal) -> Expression {
    expr(ExpressionKind::Literal(literal), Type::Field)
}

fn named(definition: Definition, typ: fn() -> Type) -> Expression {
    expr(ExpressionKind::Ident(Ident { definition, typ: typ() }), typ())
}

fn local_of(id: u32, typ: fn() -> Type) -> Expression {
    named(Definition::Local(LocalId(id)), typ)
}

fn local(id: u32) -> Expression {
    local_of(id, u32_type)
}

fn binary(lhs: Expression, operator: BinaryOpKind, rhs: Expression) -> Expression {
    let parts = Binary { lhs: Box::new(lhs), operator, rhs: Box::new(rhs) };
    expr(ExpressionKind::Binary(parts), Type::Bool)
}

fn unary(operator: UnaryOp, rhs: Expression) -> Expression {
    let parts = Unary { operator, rhs: Box::new(rhs), skip: false };
    expr(ExpressionKind::Unary(parts), Type::Bool)
}

fn block(exprs: Vec<Expression>) -> Expression {
    stmt(ExpressionKind::Block(exprs))
}

fn place(id: u32, typ: Type) -> LValue {
    LValue::Ident(Ident { definition: Definition::Local(LocalId(id)), typ })
}

fn assign(lvalue: LValue, expression: Expression) -> Expression {
    stmt(ExpressionKind::Assign(Assign { lvalue, expression: Box::new(expression) }))
}

fn call(definition: Definition, arguments: Vec<Expression>, return_type: fn() -> Type) -> Expression {
    let func = Box::new(named(definition, || Type::Function));
    expr(ExpressionKind::Call(Call { func, arguments, return_type: return_type() }), return_type())
}

fn builtin(name: &str, arguments: Vec<Expression>, return_type: fn() -> Type) -> Expression {
    call(Definition::Builtin(name.to_string()), arguments, return_type)
}

fn lowlevel(name: &str, arguments: Vec<Expression>, return_type: fn() -> Type) -> Expression {
    call(Definition::LowLevel(name.to_string()), arguments, return_type)
}

fn array_of(len: u32) -> Type {
    Type::Array(len, Box::new(u32_type()))
}

fn is_unconstrained() -> Expression {
    builtin("is_unconstrained", vec![], || Type::Bool)
}

fn if_else(
    condition: Expression,
    consequence: Expression,
    alternative: Option<Expression>,
    typ: Type,
) -> Expression {
    stmt(ExpressionKind::If(If {
        condition: Box::new(condition),
        consequence: Box::new(consequence),
        alternative: alternative.map(Box::new),
        typ,
    }))
}

#[test]
fn locals_are_read_by_value_or_through_their_pointer() {
    let done = convert(&local(1));
    assert_eq!(done.result, Some(ValueId(1)));
    assert_eq!(done.code(0), []);
    let done = convert(&local(2));
    assert_eq!(done.result, Some(ValueId(4)));
    assert_eq!(done.code(0), [(Opcode::Load, vec![3])]);
    assert_eq!(done.block(0).instructions[0].op, Opcode::Alloc);
    assert_eq!(done.block(0).instructions[0].types, [hlssa::Type::U(32)]);
    assert_eq!(done.block(0).instructions[1].op, Opcode::Store);
    assert_eq!(done.block(0).instructions[1].operands, [ValueId(3), ValueId(2)]);
}

#[test]
fn functions_and_globals_are_named() {
    let done = convert(&named(Definition::Function(FuncId(4)), || Type::Function));
    assert_eq!(done.constants(), [(4, Constant::FnPtr(FunctionId(40)))]);
    assert_eq!(done.result, Some(ValueId(4)));
    let done = convert(&named(Definition::Global(GlobalId(3)), || Type::Field));
    assert_eq!(done.code(0), [(Opcode::ReadGlobal(33), vec![])]);
    assert_eq!(done.block(0).instructions[2].types, [hlssa::Type::Field]);
}

#[test]
fn comparisons_are_made_from_two() {
    let done = |operator| convert(&binary(local(0), operator, local(1))).code(0);
    let eq = Opcode::Binary(BinaryOp::Eq);
    let lt = Opcode::Binary(BinaryOp::Lt);
    assert_eq!(done(BinaryOpKind::Equal), [(eq, vec![0, 1])]);
    assert_eq!(done(BinaryOpKind::NotEqual), [(eq, vec![0, 1]), (Opcode::Not, vec![4])]);
    assert_eq!(done(BinaryOpKind::Less), [(lt, vec![0, 1])]);
    assert_eq!(done(BinaryOpKind::Greater), [(lt, vec![1, 0])]);
    assert_eq!(done(BinaryOpKind::LessEqual), [(lt, vec![1, 0]), (Opcode::Not, vec![4])]);
    assert_eq!(done(BinaryOpKind::GreaterEqual), [(lt, vec![0, 1]), (Opcode::Not, vec![4])]);
}

#[test]
fn other_operators_have_their_own_instruction() {
    let pairs = [
        (BinaryOpKind::Add, BinaryOp::Add),
        (BinaryOpKind::Subtract, BinaryOp::Sub),
        (BinaryOpKind::Multiply, BinaryOp::Mul),
        (BinaryOpKind::Divide, BinaryOp::Div),
        (BinaryOpKind::Modulo, BinaryOp::Modulo),
        (BinaryOpKind::And, BinaryOp::And),
        (BinaryOpKind::Or, BinaryOp::Or),
        (BinaryOpKind::Xor, BinaryOp::Xor),
        (BinaryOpKind::ShiftLeft, BinaryOp::Shl),
        (BinaryOpKind::ShiftRight, BinaryOp::Shr),
    ];
    for (operator, op) in pairs {
        let done = convert(&binary(local(2), operator, local(1)));
        assert_eq!(
            done.code(0),
            [(Opcode::Load, vec![3]), (Opcode::Binary(op), vec![4, 1])]
        );
        assert_eq!(done.result, Some(ValueId(5)));
    }
}

#[test]
fn integers_are_given_by_width_and_pattern() {
    let constant = |n, typ| convert(&literal(number(n, typ))).constants();
    assert_eq!(constant(7, u32_type()), [(4, Constant::U(32, 7))]);
    assert_eq!(
        constant(i128::MAX, u(IntegerBitSize::HundredTwentyEight)),
        [(4, Constant::U(128, i128::MAX as u128))]
    );
    assert_eq!(constant(1, Type::Bool), [(4, Constant::U(1, 1))]);
    assert_eq!(constant(-1, i(IntegerBitSize::Eight)), [(4, Constant::I(8, 255))]);
    assert_eq!(constant(-128, i(IntegerBitSize::Eight)), [(4, Constant::I(8, 128))]);
    assert_eq!(constant(127, i(IntegerBitSize::Eight)), [(4, Constant::I(8, 127))]);
    assert_eq!(constant(-2, i(IntegerBitSize::SixtyFour)), [(4, Constant::I(64, u64::MAX as u128 - 1))]);
    assert_eq!(constant(-3, i(IntegerBitSize::Sixteen)), [(4, Constant::I(16, 0xfffd))]);
    assert_eq!(constant(9, Type::Field), [(4, Constant::Field(Field::from_u64(9)))]);
}

/// Two literals of the same number, given in two fields, are the same constant.
#[test]
fn integers_do_not_depend_on_the_source_field() {
    let given = |le_bytes: &[u8]| {
        let field_element = FieldElement { le_bytes: le_bytes.to_vec() };
        let number =
            SignedField { field_element, signed: None, unsigned: Some(u64::MAX as u128) };
        let done = convert(&literal(Literal::Integer(number, u(IntegerBitSize::SixtyFour))));
        done.constants()
    };
    assert_eq!(given(&[255; 8]), [(4, Constant::U(64, u64::MAX as u128))]);
    assert_eq!(given(&[254, 255, 255, 255]), given(&[255; 8]));
}

#[test]
fn other_literals() {
    assert_eq!(convert(&literal(Literal::Bool(true))).constants(), [(4, Constant::U(1, 1))]);
    assert_eq!(convert(&literal(Literal::Bool(false))).constants(), [(4, Constant::U(1, 0))]);
    assert_eq!(convert(&literal(Literal::Unit)).result, None);
    let done = convert(&literal(Literal::Str("hé".to_string())));
    assert_eq!(
        done.constants(),
        [(4, Constant::U(8, 104)), (5, Constant::U(8, 0xc3)), (6, Constant::U(8, 0xa9))]
    );
    assert_eq!(
        done.code(0),
        [(Opcode::MkSeq(SequenceTargetType::Array(3)), vec![4, 5, 6])]
    );
    assert_eq!(done.block(0).instructions[2].types, [hlssa::Type::U(8)]);
}

#[test]
fn format_strings_carry_what_they_capture() {
    let fragments = || {
        vec![
            FmtStrFragment::String("é".to_string()),
            FmtStrFragment::Interpolation("x".to_string()),
        ]
    };
    let captures = expr(ExpressionKind::Tuple(vec![local(1)]), Type::Tuple(vec![u32_type()]));
    let done = convert(&literal(Literal::FmtStr(fragments(), Box::new(captures))));
    let points: Vec<u128> = ['é', '{', 'x', '}'].iter().map(|&c| c as u128).collect();
    let constants: Vec<(usize, Constant)> =
        points.iter().enumerate().map(|(k, &p)| (4 + k, Constant::U(32, p))).collect();
    assert_eq!(done.constants(), constants);
    assert_eq!(
        done.code(0),
        [
            (Opcode::MkSeq(SequenceTargetType::Array(4)), vec![4, 5, 6, 7]),
            (Opcode::MkTuple, vec![8, 1]),
        ]
    );
    let text = hlssa::Type::Array(Box::new(hlssa::Type::U(32)), 4);
    assert_eq!(done.block(0).instructions[3].types, [text, hlssa::Type::U(32)]);
    let done = convert(&literal(Literal::FmtStr(fragments(), Box::new(literal(Literal::Unit)))));
    assert_eq!(done.code(0)[1], (Opcode::MkTuple, vec![8]));
}

#[test]
fn arrays_and_tuples_hold_their_elements_in_order() {
    let array = |typ| ArrayLiteral { contents: vec![local(1), local(0)], typ };
    let done = convert(&literal(Literal::Array(array(array_of(2)))));
    assert_eq!(done.code(0), [(Opcode::MkSeq(SequenceTargetType::Array(2)), vec![1, 0])]);
    let vector = Type::Vector(Box::new(u32_type()));
    let done = convert(&literal(Literal::Vector(array(vector))));
    assert_eq!(done.code(0), [(Opcode::MkSeq(SequenceTargetType::Slice), vec![1, 0])]);
    let repeated = |is_vector| Literal::Repeated {
        element: Box::new(local(1)),
        length: 6,
        is_vector,
        typ: array_of(6),
    };
    let done = convert(&literal(repeated(false)));
    assert_eq!(
        done.code(0),
        [(Opcode::MkRepeated(SequenceTargetType::Array(6), 6), vec![1])]
    );
    let done = convert(&literal(repeated(true)));
    assert_eq!(done.code(0), [(Opcode::MkRepeated(SequenceTargetType::Slice, 6), vec![1])]);
    let function = named(Definition::Function(FuncId(4)), || {
        Type::Tuple(vec![Type::Function, Type::Function])
    });
    let tuple = expr(ExpressionKind::Tuple(vec![local(1), function]), Type::Unit);
    let done = convert(&tuple);
    assert_eq!(done.code(0), [(Opcode::MkTuple, vec![1, 4])]);
    assert_eq!(
        done.block(0).instructions[2].types,
        [hlssa::Type::U(32), hlssa::Type::Function]
    );
}

#[test]
fn parts_are_read_through_references() {
    let index = |collection| {
        let parts = Index { collection: Box::new(collection), index: Box::new(local(1)) };
        expr(ExpressionKind::Index(parts), u32_type())
    };
    let done = convert(&index(local_of(0, || array_of(2))));
    assert_eq!(done.code(0), [(Opcode::ArrayGet, vec![0, 1])]);
    let reference = || Type::Reference(Box::new(array_of(2)), true);
    let done = convert(&index(local_of(0, reference)));
    assert_eq!(done.code(0), [(Opcode::Load, vec![0]), (Opcode::ArrayGet, vec![4, 1])]);
    let field = |tuple| expr(ExpressionKind::ExtractTupleField(Box::new(tuple), 3), u32_type());
    let done = convert(&field(local_of(0, || Type::Tuple(vec![]))));
    assert_eq!(done.code(0), [(Opcode::TupleProj(3), vec![0])]);
    let done = convert(&field(local_of(0, reference)));
    assert_eq!(done.code(0), [(Opcode::Load, vec![0]), (Opcode::TupleProj(3), vec![4])]);
}

#[test]
fn unary_operators() {
    let done = convert(&unary(UnaryOp::Not, local(1)));
    assert_eq!(done.code(0), [(Opcode::Not, vec![1])]);
    let sub = Opcode::Binary(BinaryOp::Sub);
    let zero = |typ: fn() -> Type| {
        let done = convert(&unary(UnaryOp::Minus, local_of(1, typ)));
        assert_eq!(done.code(0), [(sub, vec![4, 1])]);
        done.constants()[0].1
    };
    assert_eq!(zero(u32_type), Constant::U(32, 0));
    assert_eq!(zero(|| i(IntegerBitSize::Eight)), Constant::I(8, 0));
    assert_eq!(zero(|| Type::Field), Constant::Field(Field::from_u64(0)));
    let done = convert(&unary(UnaryOp::Dereference, local(1)));
    assert_eq!(done.code(0), [(Opcode::Load, vec![1])]);
    let done = convert(&unary(UnaryOp::Reference, local(2)));
    assert_eq!((done.result, done.code(0)), (Some(ValueId(3)), vec![]));
    let done = convert(&unary(UnaryOp::Reference, local(1)));
    assert_eq!(done.code(0), [(Opcode::Alloc, vec![]), (Opcode::Store, vec![4, 1])]);
    assert_eq!(done.result, Some(ValueId(4)));
    let skipped = Unary { operator: UnaryOp::Not, rhs: Box::new(local(1)), skip: true };
    let done = convert(&expr(ExpressionKind::Unary(skipped), Type::Bool));
    assert_eq!((done.result, done.code(0)), (Some(ValueId(1)), vec![]));
}

#[test]
fn casts_cut_and_extend() {
    let cast = |source: fn() -> Type, typ| {
        let parts = Cast { lhs: Box::new(local_of(1, source)), typ };
        convert(&expr(ExpressionKind::Cast(parts), Type::Field)).code(0)
    };
    let u8_type = || u(IntegerBitSize::Eight);
    let i8_type = || i(IntegerBitSize::Eight);
    assert_eq!(
        cast(u32_type, u8_type()),
        [(Opcode::BitRange(0, 8), vec![1]), (Opcode::Cast(CastTarget::U(8)), vec![4])]
    );
    assert_eq!(cast(u8_type, u32_type()), [(Opcode::Cast(CastTarget::U(32)), vec![1])]);
    assert_eq!(
        cast(i8_type, i(IntegerBitSize::Sixteen)),
        [(Opcode::Sext(8, 16), vec![1]), (Opcode::Cast(CastTarget::I(16)), vec![4])]
    );
    assert_eq!(cast(i8_type, u8_type()), [(Opcode::Cast(CastTarget::U(8)), vec![1])]);
    assert_eq!(
        cast(|| Type::Field, Type::Bool),
        [(Opcode::BitRange(0, 1), vec![1]), (Opcode::Cast(CastTarget::U(1)), vec![4])]
    );
    assert_eq!(cast(u8_type, Type::Field), [(Opcode::Cast(CastTarget::Field), vec![1])]);
    assert_eq!(cast(|| Type::Unit, u8_type()), [(Opcode::Cast(CastTarget::U(8)), vec![1])]);
}

#[test]
fn bindings_hold_for_what_follows() {
    let bind = |mutable, expression| {
        stmt(ExpressionKind::Let(Let { id: LocalId(9), mutable, expression: Box::new(expression) }))
    };
    let done = convert(&block(vec![bind(false, local(1)), local(9)]));
    assert_eq!((done.result, done.code(0)), (Some(ValueId(1)), vec![]));
    let done = convert(&block(vec![bind(true, local(1)), local(9)]));
    assert_eq!(
        done.code(0),
        [(Opcode::Alloc, vec![]), (Opcode::Store, vec![4, 1]), (Opcode::Load, vec![4])]
    );
    assert_eq!(done.result, Some(ValueId(5)));
    let done = convert(&block(vec![bind(false, literal(Literal::Unit)), local(9)]));
    assert_eq!((done.result, done.code(0)), (Some(ValueId(4)), vec![(Opcode::MkTuple, vec![])]));
}

#[test]
fn blocks_have_the_value_of_their_last_expression() {
    assert_eq!(convert(&block(vec![])).result, None);
    assert_eq!(convert(&block(vec![local(0), local(1)])).result, Some(ValueId(1)));
    let semi = stmt(ExpressionKind::Semi(Box::new(local(2))));
    let done = convert(&block(vec![local(0), semi]));
    assert_eq!((done.result, done.code(0)), (None, vec![(Opcode::Load, vec![3])]));
    let done = convert(&stmt(ExpressionKind::Clone(Box::new(local(1)))));
    assert_eq!((done.result, done.code(0)), (Some(ValueId(1)), vec![]));
    let done = convert(&stmt(ExpressionKind::Drop(Box::new(local(2)))));
    assert_eq!((done.result, done.code(0)), (None, vec![]));
    let done = convert(&stmt(ExpressionKind::Constrain(Box::new(local(1)))));
    assert_eq!((done.result, done.code(0)), (None, vec![(Opcode::AssertBool, vec![1])]));
}

#[test]
fn whole_variables_are_written() {
    let done = convert(&assign(place(2, u32_type()), local(1)));
    assert_eq!((done.result, done.code(0)), (None, vec![(Opcode::Store, vec![3, 1])]));
    let through = LValue::Dereference {
        reference: Box::new(place(0, Type::Reference(Box::new(u32_type()), true))),
        element_type: u32_type(),
    };
    let done = convert(&assign(LValue::Clone(Box::new(through)), local(1)));
    assert_eq!(done.code(0), [(Opcode::Store, vec![0, 1])]);
}

/// `v[0].1 = 1`, where `v` is an array of triples.
#[test]
fn one_part_of_a_variable_is_written() {
    let triple = || Type::Tuple(vec![u32_type(), Type::Field, Type::Bool]);
    let element = LValue::Index {
        array: Box::new(place(2, Type::Array(4, Box::new(triple())))),
        index: Box::new(local(0)),
    };
    let field = LValue::MemberAccess { object: Box::new(element), field_index: 1 };
    let done = convert(&assign(field, local(1)));
    assert_eq!(
        done.code(0),
        [
            (Opcode::Load, vec![3]),             // 4: v
            (Opcode::ArrayGet, vec![4, 0]),      // 5: v[0]
            (Opcode::TupleProj(1), vec![5]),     // 6: v[0].1
            (Opcode::TupleProj(0), vec![5]),     // 7: v[0].0
            (Opcode::TupleProj(2), vec![5]),     // 8: v[0].2
            (Opcode::MkTuple, vec![7, 1, 8]),    // 9: the new v[0]
            (Opcode::ArraySet, vec![4, 0, 9]),   // 10: the new v
            (Opcode::Store, vec![3, 10]),
        ]
    );
    assert_eq!(
        done.block(0).instructions[7].types,
        [hlssa::Type::U(32), hlssa::Type::Field, hlssa::Type::U(1)]
    );
}

#[test]
fn branches_meet_again() {
    let e = if_else(local(0), local(1), Some(local(2)), u32_type());
    let done = convert(&e);
    assert_eq!(done.branch(0), (0, 1, 2));
    assert_eq!(done.jump(1), (3, vec![1]));
    assert_eq!(done.code(2), [(Opcode::Load, vec![3])]);
    assert_eq!(done.jump(2), (3, vec![4]));
    assert_eq!(done.block(3).parameters, [(ValueId(5), hlssa::Type::U(32))]);
    assert_eq!(done.result, Some(ValueId(5)));
    assert_eq!(done.current, BlockId(3));
    assert!(done.is_open(3));
    let done = convert(&if_else(local(0), literal(Literal::Unit), None, Type::Unit));
    assert_eq!(done.branch(0), (0, 1, 2));
    assert_eq!((done.jump(1), done.jump(2)), ((3, vec![]), (3, vec![])));
    assert_eq!((done.result, done.current), (None, BlockId(3)));
}

#[test]
fn known_conditions_leave_one_branch() {
    let mut setup = Setup::new();
    for in_unconstrained in [false, true] {
        setup.in_unconstrained = in_unconstrained;
        let e = if_else(is_unconstrained(), local(0), Some(local(1)), u32_type());
        let done = setup.convert(&e);
        assert_eq!(done.result, Some(ValueId(if in_unconstrained { 0 } else { 1 })));
        assert_eq!((done.builder.blocks().len(), done.code(0)), (1, vec![]));
        let negated = unary(UnaryOp::Not, is_unconstrained());
        let done = setup.convert(&if_else(negated, local(0), None, Type::Unit));
        let expected = if in_unconstrained { None } else { Some(ValueId(0)) };
        assert_eq!(done.result, expected);
        assert_eq!(done.builder.blocks().len(), 1);
    }
}

/// `for 9 in 0..1 { 2 = 9 }`, with or without the end.
#[test]
fn for_loops_count() {
    let for_loop = |inclusive| {
        stmt(ExpressionKind::For(For {
            index_variable: LocalId(9),
            index_type: u32_type(),
            start_range: Box::new(local(0)),
            end_range: Box::new(local(1)),
            inclusive,
            block: Box::new(assign(place(2, u32_type()), local(9))),
        }))
    };
    let lt = Opcode::Binary(BinaryOp::Lt);
    let add = Opcode::Binary(BinaryOp::Add);
    let done = convert(&for_loop(false));
    assert_eq!(done.jump(0), (1, vec![0]));
    assert_eq!(done.block(1).parameters, [(ValueId(4), hlssa::Type::U(32))]);
    assert_eq!(done.code(1), [(lt, vec![4, 1])]);
    assert_eq!(done.branch(1), (5, 2, 3));
    assert_eq!(done.code(2), [(Opcode::Store, vec![3, 4]), (add, vec![4, 6])]);
    assert_eq!(done.constants(), [(6, Constant::U(32, 1))]);
    assert_eq!(done.jump(2), (1, vec![7]));
    assert_eq!((done.result, done.current), (None, BlockId(3)));
    let done = convert(&for_loop(true));
    assert_eq!(done.code(0), [(add, vec![1, 4])]);
    assert_eq!(done.constants()[0], (4, Constant::U(32, 1)));
    assert_eq!(done.code(1), [(lt, vec![6, 5])]);
}

#[test]
fn while_loops_test_first() {
    let e = stmt(ExpressionKind::While(While {
        condition: Box::new(local(2)),
        body: Box::new(literal(Literal::Unit)),
    }));
    let done = convert(&e);
    assert_eq!(done.jump(0), (1, vec![]));
    assert_eq!(done.code(1), [(Opcode::Load, vec![3])]);
    assert_eq!(done.branch(1), (4, 2, 3));
    assert_eq!(done.jump(2), (1, vec![]));
    assert_eq!(done.current, BlockId(3));
}

#[test]
fn loops_are_left_by_break() {
    let body = if_else(
        local(0),
        stmt(ExpressionKind::Break),
        Some(stmt(ExpressionKind::Continue)),
        Type::Unit,
    );
    let done = convert(&stmt(ExpressionKind::Loop(Box::new(body))));
    assert_eq!(done.jump(0), (1, vec![]));
    assert_eq!(done.branch(1), (0, 3, 4));
    assert_eq!(done.jump(3), (2, vec![]));
    assert_eq!(done.jump(4), (1, vec![]));
    // What follows the break and the continue is dead, and leads on to where the branches meet.
    assert_eq!((done.jump(6), done.jump(7)), ((5, vec![]), (5, vec![])));
    assert_eq!(done.jump(5), (1, vec![]));
    assert_eq!(done.current, BlockId(2));
    assert!(done.is_open(2));
}

#[test]
fn continue_advances_the_index() {
    let e = stmt(ExpressionKind::For(For {
        index_variable: LocalId(9),
        index_type: u32_type(),
        start_range: Box::new(local(0)),
        end_range: Box::new(local(1)),
        inclusive: false,
        block: Box::new(stmt(ExpressionKind::Continue)),
    }));
    let done = convert(&e);
    assert_eq!(done.code(2), [(Opcode::Binary(BinaryOp::Add), vec![4, 6])]);
    assert_eq!(done.jump(2), (1, vec![7]));
    assert_eq!(done.jump(4), (1, vec![9]));
    assert_eq!(done.current, BlockId(3));
}

#[test]
fn functions_are_called() {
    let four = || Definition::Function(FuncId(4));
    let op = |function, unconstrained| Opcode::Call { function: FunctionId(function), unconstrained };
    let done = convert(&call(four(), vec![local(1), local(0)], u32_type));
    assert_eq!(done.code(0), [(op(40, true), vec![1, 0])]);
    assert_eq!(done.result, Some(ValueId(4)));
    let done = convert(&call(four(), vec![], || Type::Unit));
    assert_eq!((done.result, done.code(0)), (None, vec![(op(40, true), vec![])]));
    let done = convert(&call(Definition::Function(FuncId(5)), vec![], u32_type));
    assert_eq!(done.code(0), [(op(50, false), vec![])]);
    let mut setup = Setup::new();
    setup.in_unconstrained = true;
    let done = setup.convert(&call(four(), vec![], u32_type));
    assert_eq!(done.code(0), [(op(40, false), vec![])]);
}

#[test]
fn pointers_are_called_after_the_arguments() {
    let func = Box::new(stmt(ExpressionKind::Clone(Box::new(local(2)))));
    let e = ExpressionKind::Call(Call { func, arguments: vec![integer(5)], return_type: u32_type() });
    let done = convert(&expr(e, u32_type()));
    assert_eq!(done.constants(), [(4, Constant::U(32, 5))]);
    assert_eq!(
        done.code(0),
        [(Opcode::Load, vec![3]), (Opcode::CallIndirect, vec![5, 4])]
    );
}

#[test]
fn printing_has_no_code() {
    let e = call(Definition::Oracle("print".to_string()), vec![local(2)], || Type::Unit);
    let done = convert(&e);
    assert_eq!((done.result, done.code(0)), (None, vec![]));
}

#[test]
fn builtins() {
    let code = |e: Expression| convert(&e).code(0);
    let pair = || vec![local(0), local(1)];
    assert_eq!(
        code(builtin("assert_eq", pair(), || Type::Unit)),
        [(Opcode::AssertEq, vec![0, 1])]
    );
    assert_eq!(
        code(builtin("static_assert", pair(), || Type::Unit)),
        [(Opcode::AssertBool, vec![0])]
    );
    assert_eq!(
        code(builtin("to_le_radix", pair(), || array_of(6))),
        [(Opcode::ToRadix(Endianness::Little, 6), vec![0, 1])]
    );
    assert_eq!(
        code(builtin("to_be_radix", pair(), || array_of(7))),
        [(Opcode::ToRadix(Endianness::Big, 7), vec![0, 1])]
    );
    assert_eq!(
        code(builtin("to_le_bits", pair(), || array_of(8))),
        [(Opcode::ToBits(Endianness::Little, 8), vec![0])]
    );
    assert_eq!(
        code(builtin("to_be_bits", pair(), || array_of(9))),
        [(Opcode::ToBits(Endianness::Big, 9), vec![0])]
    );
    assert_eq!(
        code(builtin("apply_range_constraint", vec![local(0), integer(40)], || Type::Unit)),
        [(Opcode::RangeCheck(40), vec![0])]
    );
    assert_eq!(
        code(builtin("as_vector", vec![local(0)], u32_type)),
        [(Opcode::Cast(CastTarget::ArrayToSlice), vec![0])]
    );
    let done = convert(&builtin("as_witness", vec![local(2)], || Type::Unit));
    assert_eq!((done.result, done.code(0)), (None, vec![(Opcode::Load, vec![3])]));
    let mut setup = Setup::new();
    assert_eq!(setup.convert(&is_unconstrained()).constants(), [(4, Constant::U(1, 0))]);
    setup.in_unconstrained = true;
    assert_eq!(setup.convert(&is_unconstrained()).constants(), [(4, Constant::U(1, 1))]);
}

#[test]
fn lengths_are_known_or_asked_for() {
    let length = |typ| {
        let argument = local_of(2, typ);
        convert(&builtin("array_len", vec![argument], u32_type))
    };
    let done = length(|| array_of(12));
    assert_eq!(done.code(0), [(Opcode::Load, vec![3])]);
    assert_eq!(done.constants(), [(5, Constant::U(32, 12))]);
    assert_eq!(done.result, Some(ValueId(5)));
    let done = length(|| Type::Vector(Box::new(Type::Field)));
    assert_eq!(done.code(0), [(Opcode::Load, vec![3]), (Opcode::SliceLen, vec![4])]);
}

#[test]
fn replacements_are_called() {
    let op = |function| Opcode::Call { function: FunctionId(function), unconstrained: false };
    let done = convert(&lowlevel("less", vec![local(0), local(1)], || Type::Bool));
    assert_eq!(done.code(0), [(op(70), vec![0, 1])]);
    let done = convert(&lowlevel("hash", vec![local(0)], || array_of(2)));
    assert_eq!(done.code(0), [(op(50), vec![0])]);
    let done = convert(&builtin("hash", vec![local(0)], || array_of(3)));
    assert_eq!(done.code(0), [(op(60), vec![0])]);
}

#[test]
fn intrinsics() {
    let code = |e: Expression| convert(&e).code(0);
    assert_eq!(
        code(lowlevel("unsafe_cast", vec![local(0)], || u(IntegerBitSize::Eight))),
        [(Opcode::Cast(CastTarget::U(8)), vec![0])]
    );
    assert_eq!(
        code(lowlevel("spread_inner", vec![local(0), integer(16)], u32_type)),
        [(Opcode::Spread(16), vec![0])]
    );
    let done = convert(&lowlevel("unspread_inner", vec![local(0), integer(1)], u32_type));
    assert_eq!(
        done.code(0),
        [(Opcode::Unspread(1), vec![0]), (Opcode::MkTuple, vec![4, 5])]
    );
    assert_eq!(done.block(0).instructions[2].results, [ValueId(4), ValueId(5)]);
    assert_eq!(
        done.block(0).instructions[3].types,
        [hlssa::Type::U(32), hlssa::Type::U(32)]
    );
    assert_eq!(done.result, Some(ValueId(6)));
}

#[test]
fn what_has_no_code_is_told() {
    let setup = Setup::new();
    let admits = |e: Expression| setup.admits(&e);
    let with_type = |lvalue: LValue| assign(lvalue, integer(1));
    let field = |id: u32, typ: Type, field_index: usize| LValue::MemberAccess {
        object: Box::new(place(id, typ)),
        field_index,
    };

    // Names.
    assert!(admits(local(2)));
    assert!(!admits(local(9)));
    assert!(!admits(named(Definition::Global(GlobalId(9)), u32_type)));
    assert!(!admits(named(Definition::Function(FuncId(9)), u32_type)));
    assert!(!admits(named(Definition::Builtin("assert_eq".to_string()), u32_type)));

    // A local is bound from its `let` on.
    let bind = |mutable: bool, expression: Expression| {
        stmt(ExpressionKind::Let(Let { id: LocalId(9), mutable, expression: Box::new(expression) }))
    };
    assert!(admits(block(vec![bind(false, integer(1)), local(9)])));
    assert!(!admits(block(vec![local(9), bind(false, integer(1))])));
    assert!(!admits(block(vec![bind(false, integer(1)), with_type(place(9, u32_type()))])));
    assert!(admits(block(vec![bind(true, integer(1)), with_type(place(9, u32_type()))])));
    assert!(!admits(bind(true, stmt(ExpressionKind::Break))));
    assert!(!admits(bind(true, block(vec![]))));

    // A value that is needed.
    assert!(!admits(binary(integer(1), BinaryOpKind::Add, block(vec![]))));
    assert!(!admits(stmt(ExpressionKind::Constrain(Box::new(block(vec![]))))));
    assert!(!admits(if_else(local(0), integer(1), None, u32_type())));
    assert!(admits(if_else(local(0), integer(1), None, Type::Unit)));
    assert!(admits(if_else(is_unconstrained(), stmt(ExpressionKind::Match), None, Type::Unit)));

    // Places.
    assert!(!admits(with_type(place(0, u32_type()))));
    assert!(admits(with_type(field(2, Type::Tuple(vec![u32_type()]), 0))));
    assert!(!admits(with_type(field(2, Type::Tuple(vec![u32_type()]), 1))));
    assert!(!admits(with_type(field(2, array_of(2), 0))));

    // Loops.
    let endless = |body: Expression| stmt(ExpressionKind::Loop(Box::new(body)));
    assert!(admits(endless(stmt(ExpressionKind::Break))));
    assert!(!admits(stmt(ExpressionKind::Break)));
    assert!(!admits(stmt(ExpressionKind::Continue)));
    assert!(!admits(block(vec![
        endless(stmt(ExpressionKind::Break)),
        stmt(ExpressionKind::Break),
    ])));
    let count = |index_type: Type| {
        stmt(ExpressionKind::For(For {
            index_variable: LocalId(9),
            index_type,
            start_range: Box::new(integer(0)),
            end_range: Box::new(integer(2)),
            inclusive: false,
            block: Box::new(local(9)),
        }))
    };
    assert!(admits(count(u32_type())));
    assert!(!admits(count(Type::Unit)));

    // Operations that are not supported.
    assert!(!admits(stmt(ExpressionKind::Match)));
    let cast = |typ: Type| {
        stmt(ExpressionKind::Cast(Cast { lhs: Box::new(integer(1)), typ }))
    };
    assert!(admits(cast(Type::Field)));
    assert!(!admits(cast(Type::Unit)));
    assert!(!admits(literal(number(1, i(IntegerBitSize::HundredTwentyEight)))));
    assert!(!admits(literal(number(-1, u32_type()))));
    assert!(!admits(literal(number(1, Type::Unit))));

    // Calls.
    assert!(admits(builtin("assert_eq", vec![integer(1), integer(1)], || Type::Unit)));
    assert!(!admits(builtin("assert_eq", vec![integer(1)], || Type::Unit)));
    assert!(!admits(builtin("to_le_bits", vec![integer(1)], u32_type)));
    assert!(!admits(builtin("apply_range_constraint", vec![integer(1), local(0)], || Type::Unit)));
    assert!(!admits(builtin("unknown", vec![], u32_type)));
    assert!(admits(lowlevel("hash", vec![], || array_of(2))));
    assert!(!admits(lowlevel("hash", vec![], || array_of(4))));
    assert!(admits(lowlevel("spread_inner", vec![local(0), integer(16)], u32_type)));
    assert!(!admits(lowlevel("spread_inner", vec![local(0), integer(17)], u32_type)));
    assert!(!admits(call(Definition::Oracle("read".to_string()), vec![], u32_type)));
}

/// Every value has one origin, and the origin names it.
#[test]
fn values_are_defined_once() {
    let e = if_else(
        binary(local(0), BinaryOpKind::NotEqual, local(1)),
        binary(local(2), BinaryOpKind::Add, integer(3)),
        Some(integer(4)),
        u32_type(),
    );
    let done = convert(&e);
    let mut defined = HashSet::new();
    for (b, block) in done.builder.blocks().iter().enumerate() {
        for (k, (value, _)) in block.parameters.iter().enumerate() {
            assert!(defined.insert(value.0));
            assert_eq!(done.builder.values()[value.0], ValueDef::Parameter(BlockId(b), k));
        }
        for (n, instruction) in block.instructions.iter().enumerate() {
            for (k, value) in instruction.results.iter().enumerate() {
                assert!(defined.insert(value.0));
                assert_eq!(done.builder.values()[value.0], ValueDef::Result(BlockId(b), n, k));
            }
        }
    }
    assert_eq!(defined.len() + done.constants().len(), done.builder.values().len());
}

/// A local that is bound once, and not as mutable, reads as its value, whatever came since.
#[test]
fn bound_locals_read_as_their_values() {
    let setup = Setup::new();
    let (mut builder, mut converter) = setup.start();
    converter.bind_local(LocalId(8), ValueId(1));
    converter.bind_local(LocalId(9), ValueId(0));
    converter.bind_local_mut(LocalId(10), ValueId(0), hlssa::Type::U(32), &mut builder);
    let condition = binary(local(0), BinaryOpKind::Less, local(1));
    let e = if_else(condition, integer(3), Some(local(10)), u32_type());
    assert!(converter.can_convert(&e, &builder));
    converter.convert_expression(&e, &mut builder);
    let current = converter.current_block();
    assert_ne!(current, BlockId(0));
    let instructions = |b: &HLFunctionBuilder| -> Vec<usize> {
        b.blocks().iter().map(|block| block.instructions.len()).collect()
    };
    let before = (builder.values().len(), instructions(&builder));
    assert!(converter.can_convert(&local(8), &builder));
    assert_eq!(converter.convert_expression(&local(8), &mut builder), Some(ValueId(1)));
    assert_eq!((builder.values().len(), instructions(&builder)), before);
    assert_eq!(converter.current_block(), current);
    converter.convert_expression(&local(10), &mut builder);
    assert_eq!(builder.values().len(), before.0 + 1);
}
