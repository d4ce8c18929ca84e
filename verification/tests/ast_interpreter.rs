//! Programs interpreted, with a small evaluator of expressions.

use std::collections::HashMap;

use mavros_compiler::ast::{
    Binary, BinaryOpKind, Call, Definition, Expression, ExpressionKind, FuncId, Function, GlobalId,
    Ident, IntegerBitSize, Let, Literal, LocalId, Program, SignedField, Signedness, Type,
};
use mavros_compiler::ast_interpreter::{
    bind_arguments, finish_call, interpret, interpret_with_inputs, Evaluator, Flow, InterpretError,
    Interpreter,
};
use mavros_compiler::field::FieldElement;

#[derive(Clone, Debug, PartialEq, Eq)]
enum Value {
    Unit,
    Bool(bool),
    Int(i128),
}

/// Evaluates numbers, comparisons, blocks, bindings, assertions and calls.
struct Walker;

impl Walker {
    fn value(
        &self,
        interpreter: &mut Interpreter<Value>,
        expr: &Expression,
        frame: &mut HashMap<u32, Value>,
    ) -> Result<Value, InterpretError> {
        match self.walk(interpreter, expr, frame)? {
            Flow::Normal(value) => Ok(value),
            _ => Err(InterpretError::Unsupported("a value was expected".to_string())),
        }
    }

    fn walk(
        &self,
        interpreter: &mut Interpreter<Value>,
        expr: &Expression,
        frame: &mut HashMap<u32, Value>,
    ) -> Result<Flow<Value>, InterpretError> {
        match &expr.kind {
            ExpressionKind::Literal(Literal::Integer(number, _)) => {
                Ok(Flow::Normal(Value::Int(number.signed.unwrap())))
            }
            ExpressionKind::Ident(ident) => match &ident.definition {
                Definition::Local(local) => Ok(Flow::Normal(frame[&local.0].clone())),
                Definition::Global(global) => {
                    let value = interpreter.globals.entry(global.0).or_insert(Value::Int(1000));
                    Ok(Flow::Normal(value.clone()))
                }
                _ => Err(InterpretError::Unsupported("no such name".to_string())),
            },
            ExpressionKind::Binary(binary) => {
                let a = self.value(interpreter, &binary.lhs, frame)?;
                let b = self.value(interpreter, &binary.rhs, frame)?;
                let result = match (binary.operator, a, b) {
                    (BinaryOpKind::Equal, a, b) => Value::Bool(a == b),
                    (BinaryOpKind::Add, Value::Int(a), Value::Int(b)) => Value::Int(a + b),
                    (BinaryOpKind::Multiply, Value::Int(a), Value::Int(b)) => Value::Int(a * b),
                    _ => return Err(InterpretError::Unsupported("operator".to_string())),
                };
                Ok(Flow::Normal(result))
            }
            ExpressionKind::Block(exprs) => {
                let mut last = Flow::Normal(Value::Unit);
                for expr in exprs {
                    last = self.walk(interpreter, expr, frame)?;
                }
                Ok(last)
            }
            ExpressionKind::Let(binding) => {
                let value = self.value(interpreter, &binding.expression, frame)?;
                frame.insert(binding.id.0, value);
                Ok(Flow::Normal(Value::Unit))
            }
            ExpressionKind::Constrain(inner) => {
                match self.value(interpreter, inner, frame)? {
                    Value::Bool(true) => Ok(Flow::Normal(Value::Unit)),
                    _ => Err(InterpretError::AssertionFailed { message: None }),
                }
            }
            ExpressionKind::Call(call) => {
                let mut args = vec![];
                for argument in &call.arguments {
                    args.push(self.value(interpreter, argument, frame)?);
                }
                match &call.func.kind {
                    ExpressionKind::Ident(Ident { definition: Definition::Function(id), .. }) => {
                        Ok(Flow::Normal(interpreter.call_function(self, *id, args)?))
                    }
                    _ => Err(InterpretError::Unsupported("call".to_string())),
                }
            }
            ExpressionKind::Break => Ok(Flow::Break),
            ExpressionKind::Continue => Ok(Flow::Continue),
            _ => Err(InterpretError::Unsupported("expression".to_string())),
        }
    }
}

impl Evaluator<Value> for Walker {
    fn eval(
        &self,
        interpreter: &mut Interpreter<Value>,
        body: &Expression,
        frame: HashMap<u32, Value>,
    ) -> Result<Flow<Value>, InterpretError> {
        let mut frame = frame;
        self.walk(interpreter, body, &mut frame)
    }
}

fn u64_type() -> Type {
    Type::Integer(Signedness::Unsigned, IntegerBitSize::SixtyFour)
}

fn expr(kind: ExpressionKind) -> Expression {
    Expression { kind, return_type: None }
}

fn integer(number: u64) -> Expression {
    let literal = SignedField {
        field_element: FieldElement { le_bytes: number.to_le_bytes().to_vec() },
        signed: Some(number as i128),
        unsigned: Some(number as u128),
    };
    expr(ExpressionKind::Literal(Literal::Integer(literal, u64_type())))
}

fn named(definition: Definition) -> Expression {
    expr(ExpressionKind::Ident(Ident { definition, typ: u64_type() }))
}

fn local(id: u32) -> Expression {
    named(Definition::Local(LocalId(id)))
}

fn binary(lhs: Expression, operator: BinaryOpKind, rhs: Expression) -> Expression {
    expr(ExpressionKind::Binary(Binary { lhs: Box::new(lhs), operator, rhs: Box::new(rhs) }))
}

fn assert_equal(lhs: Expression, rhs: Expression) -> Expression {
    expr(ExpressionKind::Constrain(Box::new(binary(lhs, BinaryOpKind::Equal, rhs))))
}

fn call(id: u32, arguments: Vec<Expression>) -> Expression {
    expr(ExpressionKind::Call(Call {
        func: Box::new(named(Definition::Function(FuncId(id)))),
        arguments,
        return_type: u64_type(),
    }))
}

fn block(exprs: Vec<Expression>) -> Expression {
    expr(ExpressionKind::Block(exprs))
}

fn function(id: u32, parameters: &[u32], body: Expression) -> Function {
    let parameters = parameters.iter().map(|&p| LocalId(p)).collect();
    Function { id: FuncId(id), parameters, body }
}

fn interpret_fixture(name: &str) -> Result<Value, InterpretError> {
    let body = match name {
        // Twice a product beyond the Goldilocks modulus, asserted to be what it is.
        "interp_basic" => block(vec![
            expr(ExpressionKind::Let(Let {
                id: LocalId(0),
                mutable: false,
                expression: Box::new(call(4, vec![integer(1 << 40), integer(1 << 30)])),
            })),
            assert_equal(
                binary(local(0), BinaryOpKind::Add, local(0)),
                binary(integer(1 << 40), BinaryOpKind::Multiply, integer(1 << 31)),
            ),
        ]),
        // The same, asserted to be something else.
        "interp_assert_fail" => {
            assert_equal(call(4, vec![integer(1 << 40), integer(1 << 30)]), integer(1 << 40))
        }
        _ => unreachable!(),
    };
    let product = binary(local(8), BinaryOpKind::Multiply, local(9));
    let program =
        Program { functions: vec![function(3, &[], body), function(4, &[8, 9], product)] };
    interpret(&program, &Walker)
}

/// A self-checking program interprets to a clean unit, with every assertion holding.
#[test]
fn interprets_basic_corpus_program() {
    let result = interpret_fixture("interp_basic").expect("interpretation should succeed");
    assert_eq!(result, Value::Unit, "main returns unit");
}

/// An assertion that does not hold is found out.
#[test]
fn detects_false_assertion() {
    match interpret_fixture("interp_assert_fail") {
        Err(InterpretError::AssertionFailed { .. }) => {}
        other => panic!("expected AssertionFailed, got {other:?}"),
    }
}

/// `main(x: Field, y: pub Field)` asserts that `x == y`; both are 3.
#[test]
fn interprets_program_with_inputs() {
    let main = function(0, &[5, 6], assert_equal(local(5), local(6)));
    let program = Program { functions: vec![main] };
    let inputs = vec![Value::Int(3), Value::Int(3)];
    let result = interpret_with_inputs(&program, inputs, &Walker).unwrap();
    assert_eq!(result, Value::Unit);
    let inputs = vec![Value::Int(3), Value::Int(4)];
    let result = interpret_with_inputs(&program, inputs, &Walker);
    assert_eq!(result, Err(InterpretError::AssertionFailed { message: None }));
}

#[test]
fn inputs_are_bound_in_order() {
    let main = function(0, &[5, 6], local(5));
    let program = Program { functions: vec![main] };
    let inputs = vec![Value::Int(11), Value::Int(12)];
    assert_eq!(interpret_with_inputs(&program, inputs, &Walker), Ok(Value::Int(11)));
}

#[test]
fn a_program_needs_a_function() {
    let program = Program { functions: vec![] };
    let expected = InterpretError::Internal("program has no functions".to_string());
    assert_eq!(interpret(&program, &Walker), Err(expected));
}

#[test]
fn the_entry_point_needs_its_inputs() {
    let main = function(0, &[5, 6], integer(1));
    let program = Program { functions: vec![main] };
    let expected =
        InterpretError::Unsupported("entry point expects 2 input(s), got 0".to_string());
    assert_eq!(interpret(&program, &Walker), Err(expected));
    let inputs = vec![Value::Unit; 13];
    let expected =
        InterpretError::Unsupported("entry point expects 2 input(s), got 13".to_string());
    assert_eq!(interpret_with_inputs(&program, inputs, &Walker), Err(expected));
}

#[test]
fn functions_are_found_by_their_identifiers() {
    let program = Program {
        functions: vec![
            function(7, &[], call(9, vec![])),
            function(9, &[], integer(90)),
            function(9, &[], integer(91)),
        ],
    };
    assert_eq!(interpret(&program, &Walker), Ok(Value::Int(90)));
    let interpreter: Interpreter<Value> = Interpreter::new(&program);
    assert_eq!(interpreter.function(FuncId(7)).unwrap().id, FuncId(7));
    let expected = InterpretError::Internal("unknown function id 1234".to_string());
    assert_eq!(interpreter.function(FuncId(1234)), Err(expected));
}

#[test]
fn calls_need_a_function_and_its_arguments() {
    let unknown = Program { functions: vec![function(0, &[], call(41, vec![]))] };
    let expected = InterpretError::Internal("unknown function id 41".to_string());
    assert_eq!(interpret(&unknown, &Walker), Err(expected));
    let short = Program {
        functions: vec![function(0, &[], call(10, vec![integer(1)])), function(10, &[1, 2, 3], integer(0))],
    };
    let expected =
        InterpretError::Internal("function 10 expects 3 arguments, got 1".to_string());
    assert_eq!(interpret(&short, &Walker), Err(expected));
}

#[test]
fn loop_signals_stay_inside_a_function() {
    let message = "break/continue escaped a function body".to_string();
    for kind in [ExpressionKind::Break, ExpressionKind::Continue] {
        let program = Program { functions: vec![function(0, &[], expr(kind))] };
        assert_eq!(interpret(&program, &Walker), Err(InterpretError::Internal(message.clone())));
    }
    assert_eq!(finish_call(Ok(Flow::Normal(5))), Ok(5));
    let error = || InterpretError::Unsupported("x".to_string());
    assert_eq!(finish_call::<u8>(Err(error())), Err(error()));
}

#[test]
fn globals_are_kept_between_calls() {
    let global = || named(Definition::Global(GlobalId(2)));
    let program = Program {
        functions: vec![
            function(0, &[], binary(call(1, vec![]), BinaryOpKind::Add, global())),
            function(1, &[], global()),
        ],
    };
    let mut interpreter = Interpreter::new(&program);
    assert!(interpreter.globals.is_empty());
    assert_eq!(interpreter.call_function(&Walker, FuncId(0), vec![]), Ok(Value::Int(2000)));
    assert_eq!(interpreter.globals[&2], Value::Int(1000));
}

#[test]
fn the_last_of_two_equal_parameters_wins() {
    let func = function(0, &[4, 4, 5], integer(0));
    let frame = bind_arguments(&func, vec!['a', 'b', 'c']).unwrap();
    assert_eq!(frame.len(), 2);
    assert_eq!(frame[&4], 'b');
    assert_eq!(frame[&5], 'c');
}
