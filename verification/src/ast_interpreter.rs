//! A tree-walking interpreter for the monomorphized program: the program's functions, and how
//! one is called. How an expression is evaluated is left to an evaluator.

use std::collections::HashMap;
use vstd::prelude::*;
use crate::ast::{Expression, FuncId, Function, LocalId, Program};
use crate::text;
use crate::text::usize_to_string;

verus! {

broadcast use vstd::std_specs::hash::group_hash_axioms;

/// Why a program could not be interpreted to its end.
#[derive(Debug, PartialEq, Eq)]
pub enum InterpretError {
    /// An assertion of the program does not hold.
    AssertionFailed { message: Option<String> },
    /// The program uses something that is not supported.
    Unsupported(String),
    /// The program is not one that the compiler makes.
    Internal(String),
}

/// What an `InterpretError` says.
pub enum InterpretErrorView {
    AssertionFailed { message: Option<Seq<char>> },
    Unsupported(Seq<char>),
    Internal(Seq<char>),
}

impl View for InterpretError {
    type V = InterpretErrorView;

    open spec fn view(&self) -> InterpretErrorView {
        match *self {
            InterpretError::AssertionFailed { message } => InterpretErrorView::AssertionFailed {
                message: match message {
                    Some(text) => Some(text@),
                    None => None,
                },
            },
            InterpretError::Unsupported(text) => InterpretErrorView::Unsupported(text@),
            InterpretError::Internal(text) => InterpretErrorView::Internal(text@),
        }
    }
}

/// What a result says.
pub open spec fn result_view<T>(result: Result<T, InterpretError>) -> Result<T, InterpretErrorView> {
    match result {
        Ok(value) => Ok(value),
        Err(error) => Err(error@),
    }
}

/// The result of an expression: a value, or a signal to the nearest enclosing loop.
#[derive(Debug, PartialEq, Eq)]
pub enum Flow<V> {
    Normal(V),
    Break,
    Continue,
}

/// A program that is being interpreted, and the globals evaluated so far.
pub struct Interpreter<'p, V> {
    pub program: &'p Program,
    pub globals: HashMap<u32, V>,
}

/// Evaluates expressions to values.
pub trait Evaluator<V> {
    /// Evaluates the body of a function whose locals are in `frame`.
    fn eval(
        &self,
        interpreter: &mut Interpreter<V>,
        body: &Expression,
        frame: HashMap<u32, V>,
    ) -> Result<Flow<V>, InterpretError>;
}

/// The message for a call with the wrong number of arguments.
pub open spec fn wrong_arguments(id: FuncId, expected: nat, got: nat) -> Seq<char> {
    "function "@ + text::decimal(id.0 as nat) + " expects "@ + text::decimal(expected)
        + " arguments, got "@ + text::decimal(got)
}

/// The message for a program that is given the wrong number of inputs.
pub open spec fn wrong_inputs(expected: nat, got: nat) -> Seq<char> {
    "entry point expects "@ + text::decimal(expected) + " input(s), got "@ + text::decimal(got)
}

/// The message for a function that the program does not have.
pub open spec fn unknown_function(id: FuncId) -> Seq<char> {
    "unknown function id "@ + text::decimal(id.0 as nat)
}

/// The locals that arguments are bound to, as far as the first `n` parameters.
pub open spec fn bound<V>(parameters: Seq<LocalId>, args: Seq<V>, n: nat) -> Map<u32, V>
    decreases n,
{
    if n == 0 {
        Map::empty()
    } else {
        bound(parameters, args, (n - 1) as nat).insert(parameters[n - 1].0, args[n - 1])
    }
}

/// The first function with an identifier is at `i`.
pub open spec fn function_at(program: Program, id: FuncId, i: int) -> bool {
    &&& 0 <= i < program.functions@.len()
    &&& program.functions@[i].id == id
    &&& forall|j: int| 0 <= j < i ==> (#[trigger] program.functions@[j]).id != id
}

/// What a call comes to, once the body of the function has been evaluated.
pub open spec fn call_result<V>(flow: Result<Flow<V>, InterpretError>) -> Result<
    V,
    InterpretErrorView,
> {
    match flow {
        Ok(Flow::Normal(value)) => Ok(value),
        Ok(_) => Err(InterpretErrorView::Internal("break/continue escaped a function body"@)),
        Err(error) => Err(error@),
    }
}

/// What a call comes to, once the body of the function has been evaluated. A signal to a loop
/// cannot leave the function.
pub fn finish_call<V>(flow: Result<Flow<V>, InterpretError>) -> (result: Result<V, InterpretError>)
    ensures
        result_view(result) == call_result(flow),
{
    match flow {
        Ok(Flow::Normal(value)) => Ok(value),
        Ok(_) => Err(InterpretError::Internal("break/continue escaped a function body".to_owned())),
        Err(error) => Err(error),
    }
}

/// Binds the arguments of a call to the parameters of the function.
pub fn bind_arguments<V>(func: &Function, args: Vec<V>) -> (frame: Result<
    HashMap<u32, V>,
    InterpretError,
>)
    ensures
        match frame {
            Ok(frame) => func.parameters@.len() == args@.len() && frame@ == bound(
                func.parameters@,
                args@,
                args@.len(),
            ),
            Err(error) => func.parameters@.len() != args@.len() && error@
                == InterpretErrorView::Internal(
                wrong_arguments(func.id, func.parameters@.len(), args@.len()),
            ),
        },
{
    if func.parameters.len() != args.len() {
        let message = "function ".to_owned().concat(usize_to_string(func.id.0 as usize).as_str())
            .concat(" expects ").concat(usize_to_string(func.parameters.len()).as_str()).concat(
            " arguments, got ",
        ).concat(usize_to_string(args.len()).as_str());
        return Err(InterpretError::Internal(message));
    }
    let ghost all = args@;
    let mut rest = args;
    let mut frame: HashMap<u32, V> = HashMap::new();
    let mut i: usize = 0;
    while i < func.parameters.len()
        invariant
            i <= func.parameters@.len(),
            func.parameters@.len() == all.len(),
            rest@ == all.skip(i as int),
            frame@ == bound(func.parameters@, all, i as nat),
        decreases func.parameters@.len() - i,
    {
        let arg = rest.remove(0);
        frame.insert(func.parameters[i].0, arg);
        i += 1;
        assert(rest@ =~= all.skip(i as int));
    }
    Ok(frame)
}

impl<'p, V> Interpreter<'p, V> {
    /// An interpreter that has evaluated nothing yet.
    pub fn new(program: &'p Program) -> (interpreter: Interpreter<'p, V>)
        ensures
            *interpreter.program == *program,
            interpreter.globals@ == Map::<u32, V>::empty(),
    {
        Interpreter { program, globals: HashMap::new() }
    }

    /// The entry point: the first function of the program.
    fn main_function(&self) -> (main: Result<&'p Function, InterpretError>)
        ensures
            match main {
                Ok(main) => self.program.functions@.len() > 0 && *main
                    == self.program.functions@[0],
                Err(error) => self.program.functions@.len() == 0 && error@
                    == InterpretErrorView::Internal("program has no functions"@),
            },
    {
        if self.program.functions.len() > 0 {
            Ok(&self.program.functions[0])
        } else {
            Err(InterpretError::Internal("program has no functions".to_owned()))
        }
    }

    /// The function with an identifier.
    pub fn function(&self, id: FuncId) -> (function: Result<&'p Function, InterpretError>)
        ensures
            match function {
                Ok(function) => exists|i: int|
                    function_at(*self.program, id, i) && *function
                        == #[trigger] self.program.functions@[i],
                Err(error) => error@ == InterpretErrorView::Internal(unknown_function(id))
                    && forall|i: int|
                    0 <= i < self.program.functions@.len() ==> (
                    #[trigger] self.program.functions@[i]).id != id,
            },
    {
        let mut i: usize = 0;
        while i < self.program.functions.len()
            invariant
                i <= self.program.functions@.len(),
                forall|j: int|
                    0 <= j < i ==> (#[trigger] self.program.functions@[j]).id != id,
            decreases self.program.functions@.len() - i,
        {
            if self.program.functions[i].id.0 == id.0 {
                assert(function_at(*self.program, id, i as int));
                return Ok(&self.program.functions[i]);
            }
            i += 1;
        }
        let message = "unknown function id ".to_owned().concat(
            usize_to_string(id.0 as usize).as_str(),
        );
        Err(InterpretError::Internal(message))
    }

    /// Calls a function.
    pub fn call_function<E: Evaluator<V>>(
        &mut self,
        evaluator: &E,
        id: FuncId,
        args: Vec<V>,
    ) -> (result: Result<V, InterpretError>)
        ensures
            (forall|i: int|
                0 <= i < old(self).program.functions@.len() ==> (
                #[trigger] old(self).program.functions@[i]).id != id) ==> *final(self)
                == *old(self) && result_view(result) == Err::<V, InterpretErrorView>(
                InterpretErrorView::Internal(unknown_function(id)),
            ),
            forall|i: int|
                #[trigger] function_at(*old(self).program, id, i)
                    && old(self).program.functions@[i].parameters@.len() != args@.len()
                    ==> *final(self) == *old(self) && result_view(result) == Err::<
                    V,
                    InterpretErrorView,
                >(
                    InterpretErrorView::Internal(
                        wrong_arguments(
                            id,
                            old(self).program.functions@[i].parameters@.len(),
                            args@.len(),
                        ),
                    ),
                ),
            forall|i: int|
                #[trigger] function_at(*old(self).program, id, i)
                    && old(self).program.functions@[i].parameters@.len() == args@.len() ==> exists|
                    interpreter: &mut Interpreter<'p, V>,
                    frame: HashMap<u32, V>,
                    flow: Result<Flow<V>, InterpretError>,
                |
                    {
                        &&& *interpreter == *old(self)
                        &&& *final(interpreter) == *final(self)
                        &&& frame@ == bound(
                            old(self).program.functions@[i].parameters@,
                            args@,
                            args@.len(),
                        )
                        &&& #[trigger] call_ensures(
                            E::eval,
                            (evaluator, interpreter, &old(self).program.functions@[i].body, frame),
                            flow,
                        )
                        &&& result_view(result) == call_result(flow)
                    },
    {
        let func = match self.function(id) {
            Ok(func) => func,
            Err(error) => return Err(error),
        };
        let frame = match bind_arguments(func, args) {
            Ok(frame) => frame,
            Err(error) => return Err(error),
        };
        let flow = evaluator.eval(self, &func.body, frame);
        finish_call(flow)
    }
}

/// Interprets a program, with its inputs bound to the parameters of its entry point, in order.
pub fn interpret_with_inputs<V, E: Evaluator<V>>(
    program: &Program,
    inputs: Vec<V>,
    evaluator: &E,
) -> (result: Result<V, InterpretError>)
    ensures
        program.functions@.len() == 0 ==> result_view(result) == Err::<V, InterpretErrorView>(
            InterpretErrorView::Internal("program has no functions"@),
        ),
        program.functions@.len() > 0 && program.functions@[0].parameters@.len() != inputs@.len()
            ==> result_view(result) == Err::<V, InterpretErrorView>(
            InterpretErrorView::Unsupported(
                wrong_inputs(program.functions@[0].parameters@.len(), inputs@.len()),
            ),
        ),
        program.functions@.len() > 0 && program.functions@[0].parameters@.len() == inputs@.len()
            ==> exists|
            interpreter: &mut Interpreter<V>,
            frame: HashMap<u32, V>,
            flow: Result<Flow<V>, InterpretError>,
        |
            {
                &&& *interpreter.program == *program
                &&& interpreter.globals@ == Map::<u32, V>::empty()
                &&& frame@ == bound(
                    program.functions@[0].parameters@,
                    inputs@,
                    inputs@.len(),
                )
                &&& #[trigger] call_ensures(
                    E::eval,
                    (evaluator, interpreter, &program.functions@[0].body, frame),
                    flow,
                )
                &&& result_view(result) == call_result(flow)
            },
{
    let mut interp: Interpreter<V> = Interpreter::new(program);
    let main = match interp.main_function() {
        Ok(main) => main,
        Err(error) => return Err(error),
    };
    if main.parameters.len() != inputs.len() {
        let message = "entry point expects ".to_owned().concat(
            usize_to_string(main.parameters.len()).as_str(),
        ).concat(" input(s), got ").concat(usize_to_string(inputs.len()).as_str());
        return Err(InterpretError::Unsupported(message));
    }
    assert(function_at(*program, main.id, 0));
    interp.call_function(evaluator, main.id, inputs)
}

/// Interprets a program whose entry point takes no inputs.
pub fn interpret<V, E: Evaluator<V>>(program: &Program, evaluator: &E) -> (result: Result<
    V,
    InterpretError,
>)
    ensures
        program.functions@.len() == 0 ==> result_view(result) == Err::<V, InterpretErrorView>(
            InterpretErrorView::Internal("program has no functions"@),
        ),
        program.functions@.len() > 0 && program.functions@[0].parameters@.len() != 0
            ==> result_view(result) == Err::<V, InterpretErrorView>(
            InterpretErrorView::Unsupported(
                wrong_inputs(program.functions@[0].parameters@.len(), 0),
            ),
        ),
        program.functions@.len() > 0 && program.functions@[0].parameters@.len() == 0 ==> exists|
            interpreter: &mut Interpreter<V>,
            frame: HashMap<u32, V>,
            flow: Result<Flow<V>, InterpretError>,
        |
            {
                &&& *interpreter.program == *program
                &&& interpreter.globals@ == Map::<u32, V>::empty()
                &&& frame@ == Map::<u32, V>::empty()
                &&& #[trigger] call_ensures(
                    E::eval,
                    (evaluator, interpreter, &program.functions@[0].body, frame),
                    flow,
                )
                &&& result_view(result) == call_result(flow)
            },
{
    interpret_with_inputs(program, Vec::new(), evaluator)
}

/// The entry point is found again by its identifier, even where a later function shares it.
pub proof fn law_entry_point_is_found_by_id(program: Program)
    requires
        program.functions@.len() > 0,
    ensures
        function_at(program, program.functions@[0].id, 0),
{
}

/// Where no local is a parameter twice, each holds the argument at its position.
pub proof fn law_parameters_hold_their_arguments<V>(
    parameters: Seq<LocalId>,
    args: Seq<V>,
    i: int,
)
    requires
        parameters.len() == args.len(),
        0 <= i < args.len(),
        forall|j: int| 0 <= j < args.len() && j != i ==> (#[trigger] parameters[j]).0 != parameters[i].0,
    ensures
        bound(parameters, args, args.len()).contains_key(parameters[i].0),
        bound(parameters, args, args.len())[parameters[i].0] == args[i],
{
    lemma_bound_at(parameters, args, i, args.len());
}

proof fn lemma_bound_at<V>(parameters: Seq<LocalId>, args: Seq<V>, i: int, n: nat)
    requires
        parameters.len() == args.len(),
        0 <= i < n <= args.len(),
        forall|j: int| i < j < args.len() ==> (#[trigger] parameters[j]).0 != parameters[i].0,
    ensures
        bound(parameters, args, n).contains_key(parameters[i].0),
        bound(parameters, args, n)[parameters[i].0] == args[i],
    decreases n,
{
    if i < n - 1 {
        lemma_bound_at(parameters, args, i, (n - 1) as nat);
        assert(parameters[n - 1].0 != parameters[i].0);
    }
}

/// Nothing but the parameters is bound when a function starts.
pub proof fn law_only_parameters_are_bound<V>(parameters: Seq<LocalId>, args: Seq<V>, local: u32)
    requires
        parameters.len() == args.len(),
        bound(parameters, args, args.len()).contains_key(local),
    ensures
        parameters.contains(LocalId(local)),
{
    lemma_bound_only(parameters, args, local, args.len());
}

proof fn lemma_bound_only<V>(parameters: Seq<LocalId>, args: Seq<V>, local: u32, n: nat)
    requires
        parameters.len() == args.len(),
        n <= args.len(),
        bound(parameters, args, n).contains_key(local),
    ensures
        parameters.contains(LocalId(local)),
    decreases n,
{
    if n > 0 {
        if parameters[n - 1].0 == local {
            assert(parameters[n - 1] == LocalId(local));
        } else {
            lemma_bound_only(parameters, args, local, (n - 1) as nat);
        }
    }
}

/// The message for a call with the wrong number of arguments names the function first, then says how
/// many it expects and, at the end, how many it got.
pub proof fn law_wrong_calls_are_told(id: FuncId, expected: nat, got: nat)
    ensures
        ("function "@ + text::decimal(id.0 as nat)).is_prefix_of(wrong_arguments(id, expected, got)),
        (" expects "@ + text::decimal(expected) + " arguments, got "@ + text::decimal(
            got,
        )).is_suffix_of(wrong_arguments(id, expected, got)),
        wrong_arguments(id, expected, got).len() == "function "@.len() + text::decimal(
            id.0 as nat,
        ).len() + " expects "@.len() + text::decimal(expected).len() + " arguments, got "@.len()
            + text::decimal(got).len(),
{
    let start = "function "@ + text::decimal(id.0 as nat);
    let rest = " expects "@ + text::decimal(expected) + " arguments, got "@ + text::decimal(got);
    let message = wrong_arguments(id, expected, got);
    assert(message =~= start + rest);
    assert(message.subrange((message.len() - rest.len()) as int, message.len() as int) =~= rest);
}

/// The message for the wrong number of inputs says how many the entry point expects and, at the end,
/// how many there are; the message for an unknown function ends with its identifier.
pub proof fn law_wrong_programs_are_told(id: FuncId, expected: nat, got: nat)
    ensures
        ("entry point expects "@ + text::decimal(expected)).is_prefix_of(
            wrong_inputs(expected, got),
        ),
        (" input(s), got "@ + text::decimal(got)).is_suffix_of(wrong_inputs(expected, got)),
        wrong_inputs(expected, got).len() == "entry point expects "@.len() + text::decimal(
            expected,
        ).len() + " input(s), got "@.len() + text::decimal(got).len(),
        unknown_function(id).len() == "unknown function id "@.len() + text::decimal(
            id.0 as nat,
        ).len(),
        "unknown function id "@.is_prefix_of(unknown_function(id)),
        text::decimal(id.0 as nat).is_suffix_of(unknown_function(id)),
{
    let start = "entry point expects "@ + text::decimal(expected);
    let rest = " input(s), got "@ + text::decimal(got);
    let message = wrong_inputs(expected, got);
    assert(message =~= start + rest);
    assert(message.subrange((message.len() - rest.len()) as int, message.len() as int) =~= rest);
    let number = text::decimal(id.0 as nat);
    let unknown = unknown_function(id);
    assert(unknown.subrange((unknown.len() - number.len()) as int, unknown.len() as int)
        =~= number);
}

/// A call gives the value of the function's body where that comes to one, and the body's error where
/// it ends in one. A signal to a loop that leaves the body is an error of its own, whichever it is.
pub proof fn law_calls_give_what_the_body_gives<V>(
    flow: Result<Flow<V>, InterpretError>,
    result: Result<V, InterpretError>,
)
    requires
        call_ensures(finish_call::<V>, (flow,), result),
    ensures
        forall|value: V| result == Ok::<V, InterpretError>(value) <==> flow == Ok::<
            Flow<V>,
            InterpretError,
        >(Flow::Normal(value)),
        flow matches Err(error) ==> (result matches Err(told) && told@ == error@),
        flow matches Ok(Flow::Break) ==> (result matches Err(told) && told@
            == InterpretErrorView::Internal("break/continue escaped a function body"@)),
        flow matches Ok(Flow::Continue) ==> (result matches Err(told) && told@
            == InterpretErrorView::Internal("break/continue escaped a function body"@)),
{
}

/// Arguments are bound exactly where there are as many as parameters, and then each parameter that
/// is not repeated later holds the argument at its position.
pub proof fn law_arguments_are_bound_by_position<V>(
    func: &Function,
    args: Vec<V>,
    frame: Result<HashMap<u32, V>, InterpretError>,
)
    requires
        call_ensures(bind_arguments::<V>, (func, args), frame),
    ensures
        frame is Ok <==> func.parameters@.len() == args@.len(),
        frame matches Ok(frame) ==> forall|i: int|
            #![trigger func.parameters@[i]]
            0 <= i < args@.len() && (forall|j: int|
                i < j < args@.len() ==> (#[trigger] func.parameters@[j]).0 != func.parameters@[i].0)
                ==> frame@.contains_key(func.parameters@[i].0) && frame@[func.parameters@[i].0]
                == args@[i],
{
    if let Ok(frame) = frame {
        assert forall|i: int|
            #![trigger func.parameters@[i]]
            0 <= i < args@.len() && (forall|j: int|
                i < j < args@.len() ==> (#[trigger] func.parameters@[j]).0
                    != func.parameters@[i].0) implies frame@.contains_key(func.parameters@[i].0)
            && frame@[func.parameters@[i].0] == args@[i] by {
            lemma_bound_at(func.parameters@, args@, i, args@.len());
        }
    }
}

/// A value that a program comes to is the value of the body of its first function, evaluated with
/// nothing but its parameters bound, each that is not repeated later to the input at its position,
/// and before any global. A program without functions, or with another number of inputs, comes to
/// none.
pub proof fn law_the_first_function_is_interpreted<V, E: Evaluator<V>>(
    program: &Program,
    inputs: Vec<V>,
    evaluator: &E,
    result: Result<V, InterpretError>,
)
    requires
        call_ensures(interpret_with_inputs::<V, E>, (program, inputs, evaluator), result),
    ensures
        result matches Ok(value) ==> program.functions@.len() > 0
            && program.functions@[0].parameters@.len() == inputs@.len() && exists|
            interpreter: &mut Interpreter<V>,
            frame: HashMap<u32, V>,
        |
            #[trigger] call_ensures(
                E::eval,
                (evaluator, interpreter, &program.functions@[0].body, frame),
                Ok::<Flow<V>, InterpretError>(Flow::Normal(value)),
            ) && interpreter.globals@.dom() == Set::<u32>::empty() && (forall|i: int|
                #![trigger program.functions@[0].parameters@[i]]
                0 <= i < inputs@.len() && (forall|j: int|
                    i < j < inputs@.len() ==> (#[trigger] program.functions@[0].parameters@[j]).0
                        != program.functions@[0].parameters@[i].0) ==> frame@.contains_key(
                    program.functions@[0].parameters@[i].0,
                ) && frame@[program.functions@[0].parameters@[i].0] == inputs@[i]) && (forall|
                local: u32,
            | #[trigger]
                frame@.contains_key(local) ==> program.functions@[0].parameters@.contains(
                    LocalId(local),
                )),
{
    if let Ok(value) = result {
        let function = program.functions@[0];
        let (interpreter, frame, flow) = choose|
            interpreter: &mut Interpreter<V>,
            frame: HashMap<u32, V>,
            flow: Result<Flow<V>, InterpretError>,
        |
            {
                &&& *interpreter.program == *program
                &&& interpreter.globals@ == Map::<u32, V>::empty()
                &&& frame@ == bound(function.parameters@, inputs@, inputs@.len())
                &&& #[trigger] call_ensures(
                    E::eval,
                    (evaluator, interpreter, &function.body, frame),
                    flow,
                )
                &&& result_view(result) == call_result(flow)
            };
        assert(flow == Ok::<Flow<V>, InterpretError>(Flow::Normal(value)));
        assert forall|i: int|
            #![trigger function.parameters@[i]]
            0 <= i < inputs@.len() && (forall|j: int|
                i < j < inputs@.len() ==> (#[trigger] function.parameters@[j]).0
                    != function.parameters@[i].0) implies frame@.contains_key(
            function.parameters@[i].0,
        ) && frame@[function.parameters@[i].0] == inputs@[i] by {
            lemma_bound_at(function.parameters@, inputs@, i, inputs@.len());
        }
        assert forall|local: u32| #[trigger] frame@.contains_key(local) implies function.parameters@.contains(
            LocalId(local),
        ) by {
            lemma_bound_only(function.parameters@, inputs@, local, inputs@.len());
        }
        assert(interpreter.globals@.dom() =~= Set::<u32>::empty());
    }
}

/// A function is found exactly where the program has one of that identifier, and it is one of these:
/// the first.
pub proof fn law_functions_are_found_by_id<V>(
    interpreter: &Interpreter<V>,
    id: FuncId,
    function: Result<&Function, InterpretError>,
)
    requires
        call_ensures(Interpreter::<V>::function, (interpreter, id), function),
    ensures
        function is Ok <==> exists|i: int|
            0 <= i < interpreter.program.functions@.len() && (
            #[trigger] interpreter.program.functions@[i]).id == id,
        function matches Ok(function) ==> function.id == id && exists|i: int|
            0 <= i < interpreter.program.functions@.len() && *function
                == #[trigger] interpreter.program.functions@[i] && forall|j: int|
                0 <= j < i ==> (#[trigger] interpreter.program.functions@[j]).id != id,
{
}

/// A value that a call comes to is the value of the body of the first function of that identifier,
/// evaluated by the interpreter as it is, with the arguments bound to the parameters; there are as
/// many of them.
pub proof fn law_calls_evaluate_the_function<'p, V, E: Evaluator<V>>(
    evaluator: &E,
    id: FuncId,
    args: Vec<V>,
)
    ensures
        forall|before: &mut Interpreter<'p, V>, value: V|
            #[trigger] call_ensures(
                Interpreter::<'p, V>::call_function::<E>,
                (before, evaluator, id, args),
                Ok::<V, InterpretError>(value),
            ) ==> exists|
                i: int,
                interpreter: &mut Interpreter<'p, V>,
                frame: HashMap<u32, V>,
            |
                {
                    &&& #[trigger] function_at(*before.program, id, i)
                    &&& before.program.functions@[i].parameters@.len() == args@.len()
                    &&& *interpreter == *before
                    &&& *final(interpreter) == *final(before)
                    &&& frame@ == bound(
                        before.program.functions@[i].parameters@,
                        args@,
                        args@.len(),
                    )
                    &&& #[trigger] call_ensures(
                        E::eval,
                        (evaluator, interpreter, &before.program.functions@[i].body, frame),
                        Ok::<Flow<V>, InterpretError>(Flow::Normal(value)),
                    )
                },
{
    assert forall|before: &mut Interpreter<'p, V>, value: V|
        #[trigger] call_ensures(
            Interpreter::<'p, V>::call_function::<E>,
            (before, evaluator, id, args),
            Ok::<V, InterpretError>(value),
        ) implies exists|
        i: int,
        interpreter: &mut Interpreter<'p, V>,
        frame: HashMap<u32, V>,
    |
        {
            &&& #[trigger] function_at(*before.program, id, i)
            &&& before.program.functions@[i].parameters@.len() == args@.len()
            &&& *interpreter == *before
            &&& *final(interpreter) == *final(before)
            &&& frame@ == bound(before.program.functions@[i].parameters@, args@, args@.len())
            &&& #[trigger] call_ensures(
                E::eval,
                (evaluator, interpreter, &before.program.functions@[i].body, frame),
                Ok::<Flow<V>, InterpretError>(Flow::Normal(value)),
            )
        } by {
        let functions = before.program.functions@;
        let result = Ok::<V, InterpretError>(value);
        assert(exists|i: int| 0 <= i < functions.len() && (#[trigger] functions[i]).id == id);
        let some = choose|i: int| 0 <= i < functions.len() && (#[trigger] functions[i]).id == id;
        let i = lemma_first_of(functions, id, some);
        assert(function_at(*before.program, id, i));
        assert(functions[i].parameters@.len() == args@.len());
        let (interpreter, frame, flow) = choose|
            interpreter: &mut Interpreter<'p, V>,
            frame: HashMap<u32, V>,
            flow: Result<Flow<V>, InterpretError>,
        |
            {
                &&& *interpreter == *before
                &&& *final(interpreter) == *final(before)
                &&& frame@ == bound(functions[i].parameters@, args@, args@.len())
                &&& #[trigger] call_ensures(
                    E::eval,
                    (evaluator, interpreter, &functions[i].body, frame),
                    flow,
                )
                &&& result_view(result) == call_result(flow)
            };
        assert(flow == Ok::<Flow<V>, InterpretError>(Flow::Normal(value)));
    }
}

/// Of the functions of an identifier there is a first.
proof fn lemma_first_of(functions: Seq<Function>, id: FuncId, some: int) -> (first: int)
    requires
        0 <= some < functions.len(),
        functions[some].id == id,
    ensures
        0 <= first <= some,
        functions[first].id == id,
        forall|j: int| 0 <= j < first ==> (#[trigger] functions[j]).id != id,
    decreases some,
{
    if exists|j: int| 0 <= j < some && (#[trigger] functions[j]).id == id {
        let earlier = choose|j: int| 0 <= j < some && (#[trigger] functions[j]).id == id;
        lemma_first_of(functions, id, earlier)
    } else {
        some
    }
}

} // verus!
