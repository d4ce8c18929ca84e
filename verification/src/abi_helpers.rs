//! The inputs of a program, brought into the order of its ABI.

use vstd::prelude::*;
use vstd::utf8::*;
use crate::field;
use crate::field::{Field, FieldElement, noir_field_to_bn254};
use crate::text;
use crate::text::usize_to_string;
use crate::text_map::TextMap;

verus! {

/// The type of an input.
#[derive(Debug, PartialEq, Eq)]
pub enum AbiType {
    Field,
    Array { length: u32, typ: Box<AbiType> },
    Integer { signed: bool, width: u32 },
    Boolean,
    Struct { fields: Vec<(String, AbiType)> },
    Tuple { fields: Vec<AbiType> },
    String { length: u32 },
}

/// A parameter of the program.
#[derive(Debug, PartialEq, Eq)]
pub struct AbiParameter {
    pub name: String,
    pub typ: AbiType,
}

/// The inputs that a program takes, in order, and the type of what it returns.
#[derive(Debug, PartialEq, Eq)]
pub struct Abi {
    pub parameters: Vec<AbiParameter>,
    pub return_type: Option<AbiType>,
}

/// An input as it is read, with the fields of structures in no particular order.
#[derive(Debug)]
pub enum InputValue {
    Field(FieldElement),
    String(String),
    Vec(Vec<InputValue>),
    Struct(TextMap<InputValue>),
}

/// An input in the order of the ABI.
#[derive(Debug, PartialEq, Eq)]
pub enum InputValueOrdered {
    Field(Field),
    Vec(Vec<InputValueOrdered>),
    Struct(Vec<(String, InputValueOrdered)>),
}

/// Why inputs are no inputs of a program.
#[derive(Debug, Clone, Copy, PartialEq, Eq)]
pub enum InputMismatch {
    /// There is no input for a parameter.
    MissingParameter,
    /// A structure lacks a field.
    MissingField,
    /// A text is longer or shorter than its type says.
    StringLength,
    /// A text is given where the type is another.
    NotAString,
    /// A tuple has more or fewer fields than its type.
    TupleLength,
    /// Several values or a structure are given where the type is another.
    OtherShape,
}

/// What an `InputValueOrdered` says.
pub enum OrderedView {
    Field(nat),
    Vec(Seq<OrderedView>),
    Struct(Seq<(Seq<char>, OrderedView)>),
}

impl InputValueOrdered {
    pub open spec fn view(self) -> OrderedView
        decreases self,
    {
        match self {
            InputValueOrdered::Field(element) => OrderedView::Field(element@),
            InputValueOrdered::Vec(values) => OrderedView::Vec(
                Seq::new(
                    values@.len(),
                    |i: int|
                        if 0 <= i < values@.len() {
                            values@[i].view()
                        } else {
                            OrderedView::Field(0)
                        },
                ),
            ),
            InputValueOrdered::Struct(fields) => OrderedView::Struct(
                Seq::new(
                    fields@.len(),
                    |i: int|
                        if 0 <= i < fields@.len() {
                            (fields@[i].0@, fields@[i].1.view())
                        } else {
                            (seq![], OrderedView::Field(0))
                        },
                ),
            ),
        }
    }
}

/// What each of the inputs says.
pub open spec fn ordered_views(values: Seq<InputValueOrdered>) -> Seq<OrderedView> {
    Seq::new(values.len(), |i: int| values[i].view())
}

/// What each of the named inputs says.
pub open spec fn field_views(fields: Seq<(String, InputValueOrdered)>) -> Seq<
    (Seq<char>, OrderedView),
> {
    Seq::new(fields.len(), |i: int| (fields[i].0@, fields[i].1.view()))
}

/// The bytes of a text, each as a field element.
pub open spec fn byte_elements(bytes: Seq<u8>) -> Seq<OrderedView> {
    Seq::new(bytes.len(), |i: int| OrderedView::Field(bytes[i] as nat))
}

/// An input of a type, in order, or the first thing in it that is not of that type.
pub open spec fn ordered(typ: AbiType, value: InputValue) -> Result<OrderedView, InputMismatch>
    decreases typ, 0nat, 0nat,
{
    match (value, typ) {
        (InputValue::Field(element), _) => Ok(
            OrderedView::Field(field::le_value(element.le_bytes@) % field::modulus()),
        ),
        (InputValue::Vec(values), AbiType::Array { typ: inner, .. }) => match ordered_elements(
            *inner,
            values@,
            values@.len(),
        ) {
            Ok(elements) => Ok(OrderedView::Vec(elements)),
            Err(mismatch) => Err(mismatch),
        },
        (InputValue::Struct(object), AbiType::Struct { fields }) => match ordered_fields(
            fields@,
            object@,
            fields@.len(),
        ) {
            Ok(views) => Ok(OrderedView::Struct(views)),
            Err(mismatch) => Err(mismatch),
        },
        (InputValue::String(text), AbiType::String { length }) => if encode_utf8(text@).len()
            == length {
            Ok(OrderedView::Vec(byte_elements(encode_utf8(text@))))
        } else {
            Err(InputMismatch::StringLength)
        },
        (InputValue::String(_), _) => Err(InputMismatch::NotAString),
        (InputValue::Vec(values), AbiType::Tuple { fields }) => if values@.len()
            == fields@.len() {
            match ordered_tuple(fields@, values@, fields@.len()) {
                Ok(views) => Ok(OrderedView::Struct(views)),
                Err(mismatch) => Err(mismatch),
            }
        } else {
            Err(InputMismatch::TupleLength)
        },
        _ => Err(InputMismatch::OtherShape),
    }
}

/// The first `n` elements of an array, in order.
pub open spec fn ordered_elements(typ: AbiType, values: Seq<InputValue>, n: nat) -> Result<
    Seq<OrderedView>,
    InputMismatch,
>
    decreases typ, 1nat, n,
{
    if n == 0 {
        Ok(seq![])
    } else {
        match ordered_elements(typ, values, (n - 1) as nat) {
            Err(mismatch) => Err(mismatch),
            Ok(before) => match ordered(typ, values[n - 1]) {
                Err(mismatch) => Err(mismatch),
                Ok(view) => Ok(before.push(view)),
            },
        }
    }
}

/// The first `n` fields of a structure, in the order in which its type has them.
pub open spec fn ordered_fields(
    fields: Seq<(String, AbiType)>,
    object: Map<Seq<char>, InputValue>,
    n: nat,
) -> Result<Seq<(Seq<char>, OrderedView)>, InputMismatch>
    decreases fields, n, 0nat,
{
    if n == 0 {
        Ok(seq![])
    } else if n > fields.len() {
        Err(InputMismatch::OtherShape)
    } else {
        match ordered_fields(fields, object, (n - 1) as nat) {
            Err(mismatch) => Err(mismatch),
            Ok(before) => {
                let name = fields[n - 1].0@;
                if object.contains_key(name) {
                    match ordered(fields[n - 1].1, object[name]) {
                        Err(mismatch) => Err(mismatch),
                        Ok(view) => Ok(before.push((name, view))),
                    }
                } else {
                    Err(InputMismatch::MissingField)
                }
            },
        }
    }
}

/// The first `n` fields of a tuple, which are named by their positions.
pub open spec fn ordered_tuple(fields: Seq<AbiType>, values: Seq<InputValue>, n: nat) -> Result<
    Seq<(Seq<char>, OrderedView)>,
    InputMismatch,
>
    decreases fields, n, 0nat,
{
    if n == 0 {
        Ok(seq![])
    } else if n > fields.len() {
        Err(InputMismatch::OtherShape)
    } else {
        match ordered_tuple(fields, values, (n - 1) as nat) {
            Err(mismatch) => Err(mismatch),
            Ok(before) => match ordered(fields[n - 1], values[n - 1]) {
                Err(mismatch) => Err(mismatch),
                Ok(view) => Ok(before.push((text::decimal((n - 1) as nat), view))),
            },
        }
    }
}

/// The first `n` inputs of a program, in order, or the first of them that is missing or is of
/// another type.
pub open spec fn ordered_parameters(
    parameters: Seq<AbiParameter>,
    inputs: Map<Seq<char>, InputValue>,
    n: nat,
) -> Result<Seq<OrderedView>, InputMismatch>
    decreases n,
{
    if n == 0 {
        Ok(seq![])
    } else {
        match ordered_parameters(parameters, inputs, (n - 1) as nat) {
            Err(mismatch) => Err(mismatch),
            Ok(before) => {
                let name = parameters[n - 1].name@;
                if inputs.contains_key(name) {
                    match ordered(parameters[n - 1].typ, inputs[name]) {
                        Err(mismatch) => Err(mismatch),
                        Ok(view) => Ok(before.push(view)),
                    }
                } else {
                    Err(InputMismatch::MissingParameter)
                }
            },
        }
    }
}

/// The inputs of a program, in the order of its parameters, followed by the value that it is to
/// return, if it returns one and that value is given.
pub open spec fn ordered_inputs(abi: Abi, inputs: Map<Seq<char>, InputValue>) -> Result<
    Seq<OrderedView>,
    InputMismatch,
> {
    match ordered_parameters(abi.parameters@, inputs, abi.parameters@.len()) {
        Err(mismatch) => Err(mismatch),
        Ok(views) => match abi.return_type {
            Some(typ) => if inputs.contains_key("return"@) {
                match ordered(typ, inputs["return"@]) {
                    Err(mismatch) => Err(mismatch),
                    Ok(view) => Ok(views.push(view)),
                }
            } else {
                Ok(views)
            },
            None => Ok(views),
        },
    }
}

/// What a check says of inputs that were, or were not, brought into order.
pub open spec fn verdict<T>(ordered: Result<T, InputMismatch>) -> Result<(), InputMismatch> {
    match ordered {
        Ok(_) => Ok(()),
        Err(mismatch) => Err(mismatch),
    }
}

/// Brings the inputs of a program into the order of its ABI.
pub fn ordered_params_from_btreemap(abi: &Abi, unordered_params: &TextMap<InputValue>) -> (params:
    Vec<InputValueOrdered>)
    requires
        ordered_inputs(*abi, unordered_params@) is Ok,
    ensures
        ordered_inputs(*abi, unordered_params@) == Ok::<_, InputMismatch>(ordered_views(params@)),
{
    let mut params: Vec<InputValueOrdered> = Vec::new();
    let ghost inputs = unordered_params@;
    let mut i: usize = 0;
    assert(ordered_views(params@) =~= seq![]);
    while i < abi.parameters.len()
        invariant
            i <= abi.parameters@.len(),
            inputs == unordered_params@,
            ordered_parameters(abi.parameters@, inputs, abi.parameters@.len()) is Ok,
            ordered_parameters(abi.parameters@, inputs, i as nat) == Ok::<
                _,
                InputMismatch,
            >(ordered_views(params@)),
        decreases abi.parameters@.len() - i,
    {
        proof {
            lemma_first_parameter(abi.parameters@, inputs, (i + 1) as nat, abi.parameters@.len());
        }
        let param = &abi.parameters[i];
        let value = unordered_params.get(param.name.as_str()).unwrap();
        let ghost before = params@;
        let next = ordered_param(&param.typ, value);
        params.push(next);
        assert(ordered_views(params@) =~= ordered_views(before).push(next@));
        i += 1;
    }
    if let Some(return_type) = &abi.return_type {
        if let Some(return_value) = unordered_params.get("return") {
            let ghost before = params@;
            let last = ordered_param(return_type, return_value);
            params.push(last);
            assert(ordered_views(params@) =~= ordered_views(before).push(last@));
        }
    }
    params
}

/// Brings an input into the order of its type.
fn ordered_param(abi_type: &AbiType, value: &InputValue) -> (param: InputValueOrdered)
    requires
        ordered(*abi_type, *value) is Ok,
    ensures
        ordered(*abi_type, *value) == Ok::<_, InputMismatch>(param@),
    decreases abi_type,
{
    match (value, abi_type) {
        (InputValue::Field(elem), _) => InputValueOrdered::Field(noir_field_to_bn254(elem)),
        (InputValue::Vec(values), AbiType::Array { typ, .. }) => {
            let mut elements: Vec<InputValueOrdered> = Vec::new();
            let mut i: usize = 0;
            assert(ordered_views(elements@) =~= seq![]);
            while i < values.len()
                invariant
                    i <= values@.len(),
                    abi_type is Array,
                    *typ == abi_type->Array_typ,
                    ordered_elements(**typ, values@, values@.len()) is Ok,
                    ordered_elements(**typ, values@, i as nat) == Ok::<
                        _,
                        InputMismatch,
                    >(ordered_views(elements@)),
                decreases values@.len() - i,
            {
                proof {
                    lemma_first_element(**typ, values@, (i + 1) as nat, values@.len());
                }
                let ghost before = elements@;
                let element = ordered_param(typ, &values[i]);
                elements.push(element);
                assert(ordered_views(elements@) =~= ordered_views(before).push(element@));
                i += 1;
            }
            let param = InputValueOrdered::Vec(elements);
            assert(param@->Vec_0 =~= ordered_views(elements@));
            param
        },
        (InputValue::Struct(object), AbiType::Struct { fields }) => {
            let mut ordered_object: Vec<(String, InputValueOrdered)> = Vec::new();
            let mut i: usize = 0;
            assert(field_views(ordered_object@) =~= seq![]);
            while i < fields.len()
                invariant
                    i <= fields@.len(),
                    abi_type is Struct,
                    *fields == abi_type->Struct_fields,
                    ordered_fields(fields@, object@, fields@.len()) is Ok,
                    ordered_fields(fields@, object@, i as nat) == Ok::<_, InputMismatch>(
                        field_views(ordered_object@),
                    ),
                decreases fields@.len() - i,
            {
                proof {
                    lemma_first_field(fields@, object@, (i + 1) as nat, fields@.len());
                }
                let field = &fields[i];
                let field_value = object.get(field.0.as_str()).unwrap();
                let ghost before = ordered_object@;
                let next = ordered_param(&field.1, field_value);
                ordered_object.push((field.0.clone(), next));
                assert(field_views(ordered_object@) =~= field_views(before).push(
                    (field.0@, next@),
                ));
                i += 1;
            }
            let param = InputValueOrdered::Struct(ordered_object);
            assert(param@->Struct_0 =~= field_views(ordered_object@));
            param
        },
        (InputValue::String(string), AbiType::String { .. }) => {
            let bytes = string.as_str().as_bytes();
            let mut elements: Vec<InputValueOrdered> = Vec::new();
            let mut i: usize = 0;
            while i < bytes.len()
                invariant
                    i <= bytes@.len(),
                    elements@.len() == i,
                    forall|j: int|
                        0 <= j < i ==> (#[trigger] elements@[j]).view() == OrderedView::Field(
                            bytes@[j] as nat,
                        ),
                decreases bytes@.len() - i,
            {
                elements.push(InputValueOrdered::Field(Field::from_u64(bytes[i] as u64)));
                i += 1;
            }
            let param = InputValueOrdered::Vec(elements);
            assert(param@->Vec_0 =~= byte_elements(bytes@));
            param
        },
        (InputValue::Vec(values), AbiType::Tuple { fields }) => {
            let mut named: Vec<(String, InputValueOrdered)> = Vec::new();
            let mut i: usize = 0;
            assert(field_views(named@) =~= seq![]);
            while i < fields.len()
                invariant
                    i <= fields@.len(),
                    values@.len() == fields@.len(),
                    abi_type is Tuple,
                    *fields == abi_type->Tuple_fields,
                    ordered_tuple(fields@, values@, fields@.len()) is Ok,
                    ordered_tuple(fields@, values@, i as nat) == Ok::<
                        _,
                        InputMismatch,
                    >(field_views(named@)),
                decreases fields@.len() - i,
            {
                proof {
                    lemma_first_tuple_field(fields@, values@, (i + 1) as nat, fields@.len());
                }
                let ghost before = named@;
                let next = ordered_param(&fields[i], &values[i]);
                let name = usize_to_string(i);
                named.push((name, next));
                assert(field_views(named@) =~= field_views(before).push((name@, next@)));
                i += 1;
            }
            let param = InputValueOrdered::Struct(named);
            assert(param@->Struct_0 =~= field_views(named@));
            param
        },
        _ => InputValueOrdered::Vec(Vec::new()),
    }
}

/// Checks that the inputs of a program are complete and of the right types.
pub fn check_inputs(abi: &Abi, unordered_params: &TextMap<InputValue>) -> (checked: Result<
    (),
    InputMismatch,
>)
    ensures
        checked == verdict(ordered_inputs(*abi, unordered_params@)),
{
    let ghost inputs = unordered_params@;
    let mut i: usize = 0;
    while i < abi.parameters.len()
        invariant
            i <= abi.parameters@.len(),
            inputs == unordered_params@,
            ordered_parameters(abi.parameters@, inputs, i as nat) is Ok,
        decreases abi.parameters@.len() - i,
    {
        let param = &abi.parameters[i];
        let checked = match unordered_params.get(param.name.as_str()) {
            Some(value) => check_param(&param.typ, value),
            None => Err(InputMismatch::MissingParameter),
        };
        if checked.is_err() {
            proof {
                lemma_first_parameter(
                    abi.parameters@,
                    inputs,
                    (i + 1) as nat,
                    abi.parameters@.len(),
                );
            }
            return checked;
        }
        i += 1;
    }
    if let Some(return_type) = &abi.return_type {
        if let Some(return_value) = unordered_params.get("return") {
            return check_param(return_type, return_value);
        }
    }
    Ok(())
}

/// Checks that an input is of a type.
fn check_param(abi_type: &AbiType, value: &InputValue) -> (checked: Result<(), InputMismatch>)
    ensures
        checked == verdict(ordered(*abi_type, *value)),
    decreases abi_type,
{
    match (value, abi_type) {
        (InputValue::Field(_), _) => Ok(()),
        (InputValue::Vec(values), AbiType::Array { typ, .. }) => {
            let mut i: usize = 0;
            while i < values.len()
                invariant
                    i <= values@.len(),
                    abi_type is Array,
                    *typ == abi_type->Array_typ,
                    *value == InputValue::Vec(*values),
                    ordered_elements(**typ, values@, i as nat) is Ok,
                decreases values@.len() - i,
            {
                let checked = check_param(typ, &values[i]);
                if checked.is_err() {
                    proof {
                        lemma_first_element(**typ, values@, (i + 1) as nat, values@.len());
                    }
                    return checked;
                }
                i += 1;
            }
            Ok(())
        },
        (InputValue::Struct(object), AbiType::Struct { fields }) => {
            let mut i: usize = 0;
            while i < fields.len()
                invariant
                    i <= fields@.len(),
                    *abi_type == (AbiType::Struct { fields: *fields }),
                    *value == InputValue::Struct(*object),
                    ordered_fields(fields@, object@, i as nat) is Ok,
                decreases fields@.len() - i,
            {
                let field = &fields[i];
                let checked = match object.get(field.0.as_str()) {
                    Some(field_value) => check_param(&field.1, field_value),
                    None => Err(InputMismatch::MissingField),
                };
                if checked.is_err() {
                    proof {
                        lemma_first_field(fields@, object@, (i + 1) as nat, fields@.len());
                    }
                    return checked;
                }
                i += 1;
            }
            Ok(())
        },
        (InputValue::String(string), AbiType::String { length }) => {
            if string.as_str().as_bytes().len() == *length as usize {
                Ok(())
            } else {
                Err(InputMismatch::StringLength)
            }
        },
        (InputValue::String(_), _) => Err(InputMismatch::NotAString),
        (InputValue::Vec(values), AbiType::Tuple { fields }) => {
            if values.len() != fields.len() {
                return Err(InputMismatch::TupleLength);
            }
            let mut i: usize = 0;
            while i < fields.len()
                invariant
                    i <= fields@.len(),
                    values@.len() == fields@.len(),
                    *abi_type == (AbiType::Tuple { fields: *fields }),
                    *value == InputValue::Vec(*values),
                    ordered_tuple(fields@, values@, i as nat) is Ok,
                decreases fields@.len() - i,
            {
                let checked = check_param(&fields[i], &values[i]);
                if checked.is_err() {
                    proof {
                        lemma_first_tuple_field(fields@, values@, (i + 1) as nat, fields@.len());
                    }
                    return checked;
                }
                i += 1;
            }
            Ok(())
        },
        _ => Err(InputMismatch::OtherShape),
    }
}

/// There is one input for each parameter, in the order of the parameters, and after them at most
/// the value to be returned.
pub proof fn law_inputs_are_in_parameter_order(abi: Abi, inputs: Map<Seq<char>, InputValue>, i: int)
    requires
        ordered_inputs(abi, inputs) is Ok,
        0 <= i < abi.parameters@.len(),
    ensures
        ({
            let views = ordered_inputs(abi, inputs)->Ok_0;
            let returned = abi.return_type is Some && inputs.contains_key("return"@);
            &&& views.len() == abi.parameters@.len() + if returned {
                1int
            } else {
                0
            }
            &&& ordered(abi.parameters@[i].typ, inputs[abi.parameters@[i].name@]) == Ok::<
                _,
                InputMismatch,
            >(views[i])
            &&& returned ==> ordered(abi.return_type->0, inputs["return"@]) == Ok::<
                _,
                InputMismatch,
            >(views.last())
        }),
{
    lemma_parameter_at(abi.parameters@, inputs, i, abi.parameters@.len());
}

proof fn lemma_parameter_at(
    parameters: Seq<AbiParameter>,
    inputs: Map<Seq<char>, InputValue>,
    i: int,
    n: nat,
)
    requires
        ordered_parameters(parameters, inputs, n) is Ok,
        0 <= i < n,
    ensures
        (ordered_parameters(parameters, inputs, n)->Ok_0).len() == n,
        ordered(parameters[i].typ, inputs[parameters[i].name@]) == Ok::<_, InputMismatch>(
            (ordered_parameters(parameters, inputs, n)->Ok_0)[i],
        ),
    decreases n,
{
    if i < n - 1 {
        lemma_parameter_at(parameters, inputs, i, (n - 1) as nat);
    } else {
        lemma_parameter_count(parameters, inputs, (n - 1) as nat);
    }
}

proof fn lemma_parameter_count(
    parameters: Seq<AbiParameter>,
    inputs: Map<Seq<char>, InputValue>,
    n: nat,
)
    requires
        ordered_parameters(parameters, inputs, n) is Ok,
    ensures
        (ordered_parameters(parameters, inputs, n)->Ok_0).len() == n,
    decreases n,
{
    if n > 0 {
        lemma_parameter_count(parameters, inputs, (n - 1) as nat);
    }
}

/// The fields of a structure come out in the order in which its type has them, whatever the
/// order in which they were given.
pub proof fn law_fields_are_in_declared_order(
    fields: Vec<(String, AbiType)>,
    object: TextMap<InputValue>,
    i: int,
)
    requires
        ordered(AbiType::Struct { fields }, InputValue::Struct(object)) is Ok,
        0 <= i < fields@.len(),
    ensures
        ({
            let view = ordered(AbiType::Struct { fields }, InputValue::Struct(object))->Ok_0;
            &&& view is Struct
            &&& view->Struct_0.len() == fields@.len()
            &&& view->Struct_0[i].0 == fields@[i].0@
            &&& ordered(fields@[i].1, object@[fields@[i].0@]) == Ok::<
                _,
                InputMismatch,
            >(view->Struct_0[i].1)
        }),
{
    lemma_field_at(fields@, object@, i, fields@.len());
}

proof fn lemma_field_at(
    fields: Seq<(String, AbiType)>,
    object: Map<Seq<char>, InputValue>,
    i: int,
    n: nat,
)
    requires
        ordered_fields(fields, object, n) is Ok,
        0 <= i < n <= fields.len(),
    ensures
        (ordered_fields(fields, object, n)->Ok_0).len() == n,
        (ordered_fields(fields, object, n)->Ok_0)[i].0 == fields[i].0@,
        ordered(fields[i].1, object[fields[i].0@]) == Ok::<_, InputMismatch>(
            (ordered_fields(fields, object, n)->Ok_0)[i].1,
        ),
    decreases n,
{
    if i < n - 1 {
        lemma_field_at(fields, object, i, (n - 1) as nat);
    } else if n > 1 {
        lemma_field_at(fields, object, 0, (n - 1) as nat);
    }
}

/// An input that the program does not ask for changes nothing.
pub proof fn law_other_inputs_do_not_matter(
    abi: Abi,
    inputs: Map<Seq<char>, InputValue>,
    name: Seq<char>,
    value: InputValue,
)
    requires
        forall|i: int| 0 <= i < abi.parameters@.len() ==> (#[trigger] abi.parameters@[i]).name@ != name,
        abi.return_type is None || name != "return"@,
    ensures
        ordered_inputs(abi, inputs.insert(name, value)) == ordered_inputs(abi, inputs),
{
    lemma_other_inputs(abi.parameters@, inputs, name, value, abi.parameters@.len());
}

proof fn lemma_other_inputs(
    parameters: Seq<AbiParameter>,
    inputs: Map<Seq<char>, InputValue>,
    name: Seq<char>,
    value: InputValue,
    n: nat,
)
    requires
        n <= parameters.len(),
        forall|i: int| 0 <= i < parameters.len() ==> (#[trigger] parameters[i]).name@ != name,
    ensures
        ordered_parameters(parameters, inputs.insert(name, value), n) == ordered_parameters(
            parameters,
            inputs,
            n,
        ),
    decreases n,
{
    if n > 0 {
        lemma_other_inputs(parameters, inputs, name, value, (n - 1) as nat);
        assert(parameters[n - 1].name@ != name);
    }
}

/// The first mismatch among the inputs decides.
proof fn lemma_first_parameter(
    parameters: Seq<AbiParameter>,
    inputs: Map<Seq<char>, InputValue>,
    i: nat,
    n: nat,
)
    requires
        i <= n,
    ensures
        ordered_parameters(parameters, inputs, i) is Err ==> ordered_parameters(
            parameters,
            inputs,
            n,
        ) == ordered_parameters(parameters, inputs, i),
    decreases n,
{
    if i < n {
        lemma_first_parameter(parameters, inputs, i, (n - 1) as nat);
    }
}

/// The first mismatch among the elements of an array decides.
proof fn lemma_first_element(typ: AbiType, values: Seq<InputValue>, i: nat, n: nat)
    requires
        i <= n,
    ensures
        ordered_elements(typ, values, i) is Err ==> ordered_elements(typ, values, n)
            == ordered_elements(typ, values, i),
    decreases n,
{
    if i < n {
        lemma_first_element(typ, values, i, (n - 1) as nat);
    }
}

/// The first mismatch among the fields of a structure decides.
proof fn lemma_first_field(
    fields: Seq<(String, AbiType)>,
    object: Map<Seq<char>, InputValue>,
    i: nat,
    n: nat,
)
    requires
        i <= n <= fields.len(),
    ensures
        ordered_fields(fields, object, i) is Err ==> ordered_fields(fields, object, n)
            == ordered_fields(fields, object, i),
    decreases n,
{
    if i < n {
        lemma_first_field(fields, object, i, (n - 1) as nat);
    }
}

/// The first mismatch among the fields of a tuple decides.
proof fn lemma_first_tuple_field(
    fields: Seq<AbiType>,
    values: Seq<InputValue>,
    i: nat,
    n: nat,
)
    requires
        i <= n <= fields.len(),
    ensures
        ordered_tuple(fields, values, i) is Err ==> ordered_tuple(fields, values, n)
            == ordered_tuple(fields, values, i),
    decreases n,
{
    if i < n {
        lemma_first_tuple_field(fields, values, i, (n - 1) as nat);
    }
}

/// A number that is given for a parameter of whatever type comes out as the element of bn254's field
/// that it is: it lies below the modulus, and differs from the number by a multiple of that.
pub proof fn law_numbers_come_out_as_their_element(typ: AbiType, element: FieldElement)
    ensures
        ordered(typ, InputValue::Field(element)) matches Ok(OrderedView::Field(x)) && x
            < field::modulus() && (field::le_value(element.le_bytes@) - x) % (
        field::modulus() as int) == 0,
        field::le_value(element.le_bytes@) < field::modulus() ==> ordered(
            typ,
            InputValue::Field(element),
        ) == Ok::<_, InputMismatch>(OrderedView::Field(field::le_value(element.le_bytes@))),
{
    let n = field::le_value(element.le_bytes@) as int;
    let m = field::modulus() as int;
    let q = n / m;
    vstd::arithmetic::div_mod::lemma_fundamental_div_mod(n, m);
    assert(n - n % m == q * m) by (nonlinear_arith)
        requires
            n == m * q + n % m,
    ;
    vstd::arithmetic::div_mod::lemma_mod_multiples_basic(q, m);
    if n < m {
        vstd::arithmetic::div_mod::lemma_small_mod(n as nat, m as nat);
    }
}

/// Two numbers below the modulus that differ come out different, whatever they are given for.
pub proof fn law_different_numbers_come_out_different(
    one: AbiType,
    other: AbiType,
    a: FieldElement,
    b: FieldElement,
)
    requires
        field::le_value(a.le_bytes@) < field::modulus(),
        field::le_value(b.le_bytes@) < field::modulus(),
    ensures
        (ordered(one, InputValue::Field(a)) == ordered(other, InputValue::Field(b))) <==> (
        field::le_value(a.le_bytes@) == field::le_value(b.le_bytes@)),
{
    law_numbers_come_out_as_their_element(one, a);
    law_numbers_come_out_as_their_element(other, b);
}

/// A text comes out as its UTF-8 bytes, one number for each, and only where there are as many as its
/// type says. A text for any other type is refused as such.
pub proof fn law_texts_come_out_as_their_bytes(typ: AbiType, text: String)
    ensures
        match typ {
            AbiType::String { length } => if encode_utf8(text@).len() == length {
                &&& ordered(typ, InputValue::String(text)) matches Ok(OrderedView::Vec(numbers))
                &&& numbers.len() == length
                &&& forall|i: int|
                    0 <= i < length ==> (#[trigger] numbers[i]) == OrderedView::Field(
                        encode_utf8(text@)[i] as nat,
                    )
            } else {
                ordered(typ, InputValue::String(text)) == Err::<OrderedView, _>(
                    InputMismatch::StringLength,
                )
            },
            _ => ordered(typ, InputValue::String(text)) == Err::<OrderedView, _>(
                InputMismatch::NotAString,
            ),
        },
{
}

/// Some results are all right, and give what they say; or one of them is the first that is not, and
/// its mismatch is the one that is told.
pub open spec fn gathers<T>(
    each: spec_fn(int) -> Result<T, InputMismatch>,
    n: nat,
    all: Result<Seq<T>, InputMismatch>,
) -> bool {
    match all {
        Ok(items) => items.len() == n && forall|i: int|
            0 <= i < n ==> #[trigger] each(i) == Ok::<T, InputMismatch>(items[i]),
        Err(mismatch) => exists|i: int|
            0 <= i < n && #[trigger] each(i) == Err::<T, InputMismatch>(mismatch) && forall|j: int|
                0 <= j < i ==> #[trigger] each(j) is Ok,
    }
}

/// The elements of an array come out in order, each as an element of the array's type, however many
/// there are. The first that is none decides.
pub proof fn law_elements_come_out_in_order(length: u32, typ: Box<AbiType>, values: Vec<InputValue>)
    ensures
        ({
            let result = ordered(AbiType::Array { length, typ }, InputValue::Vec(values));
            let each = |i: int| ordered(*typ, values@[i]);
            match result {
                Ok(view) => view matches OrderedView::Vec(views) && gathers(
                    each,
                    values@.len(),
                    Ok(views),
                ),
                Err(mismatch) => gathers(each, values@.len(), Err(mismatch)),
            }
        }),
{
    lemma_elements_gathered(*typ, values@, values@.len());
}

proof fn lemma_elements_gathered(typ: AbiType, values: Seq<InputValue>, n: nat)
    ensures
        gathers(|i: int| ordered(typ, values[i]), n, ordered_elements(typ, values, n)),
    decreases n,
{
    let each = |i: int| ordered(typ, values[i]);
    if n > 0 {
        lemma_elements_gathered(typ, values, (n - 1) as nat);
        match ordered_elements(typ, values, n) {
            Ok(items) => {
                let before = ordered_elements(typ, values, (n - 1) as nat)->Ok_0;
                assert forall|i: int| 0 <= i < n implies #[trigger] each(i) == Ok::<
                    OrderedView,
                    InputMismatch,
                >(items[i]) by {
                    if i < n - 1 {
                        assert(each(i) == Ok::<OrderedView, InputMismatch>(before[i]));
                    }
                }
            },
            Err(mismatch) => {
                if ordered_elements(typ, values, (n - 1) as nat) is Ok {
                    assert(each(n - 1) == Err::<OrderedView, InputMismatch>(mismatch));
                }
            },
        }
    }
}

/// The fields of a tuple come out in order, each at the type that the tuple has there, and named by
/// its position. A tuple of another length is refused as such, and else the first field that is not
/// of its type decides.
pub proof fn law_tuple_fields_are_named_by_position(
    fields: Vec<AbiType>,
    values: Vec<InputValue>,
)
    ensures
        ({
            let result = ordered(AbiType::Tuple { fields }, InputValue::Vec(values));
            let each = |i: int|
                match ordered(fields@[i], values@[i]) {
                    Ok(view) => Ok((text::decimal(i as nat), view)),
                    Err(mismatch) => Err(mismatch),
                };
            if values@.len() != fields@.len() {
                result == Err::<OrderedView, _>(InputMismatch::TupleLength)
            } else {
                match result {
                    Ok(view) => view matches OrderedView::Struct(views) && gathers(
                        each,
                        fields@.len(),
                        Ok(views),
                    ),
                    Err(mismatch) => gathers(each, fields@.len(), Err(mismatch)),
                }
            }
        }),
{
    lemma_tuple_gathered(fields@, values@, fields@.len());
}

proof fn lemma_tuple_gathered(fields: Seq<AbiType>, values: Seq<InputValue>, n: nat)
    requires
        n <= fields.len(),
    ensures
        gathers(
            |i: int|
                match ordered(fields[i], values[i]) {
                    Ok(view) => Ok((text::decimal(i as nat), view)),
                    Err(mismatch) => Err(mismatch),
                },
            n,
            ordered_tuple(fields, values, n),
        ),
    decreases n,
{
    let each = |i: int|
        match ordered(fields[i], values[i]) {
            Ok(view) => Ok((text::decimal(i as nat), view)),
            Err(mismatch) => Err(mismatch),
        };
    if n > 0 {
        lemma_tuple_gathered(fields, values, (n - 1) as nat);
        match ordered_tuple(fields, values, n) {
            Ok(items) => {
                let before = ordered_tuple(fields, values, (n - 1) as nat)->Ok_0;
                assert forall|i: int| 0 <= i < n implies #[trigger] each(i) == Ok::<
                    (Seq<char>, OrderedView),
                    InputMismatch,
                >(items[i]) by {
                    if i < n - 1 {
                        assert(each(i) == Ok::<(Seq<char>, OrderedView), InputMismatch>(before[i]));
                    }
                }
            },
            Err(mismatch) => {
                if ordered_tuple(fields, values, (n - 1) as nat) is Ok {
                    assert(each(n - 1) == Err::<(Seq<char>, OrderedView), InputMismatch>(mismatch));
                }
            },
        }
    }
}

/// The fields of a structure come out in the order of its type, each under its name and at its
/// type. A field that is not given is missing. The first that is missing or is not of its type
/// decides.
pub proof fn law_structure_fields_are_looked_up(
    fields: Vec<(String, AbiType)>,
    object: TextMap<InputValue>,
)
    ensures
        ({
            let result = ordered(AbiType::Struct { fields }, InputValue::Struct(object));
            let each = |i: int|
                if !object@.contains_key(fields@[i].0@) {
                    Err(InputMismatch::MissingField)
                } else {
                    match ordered(fields@[i].1, object@[fields@[i].0@]) {
                        Ok(view) => Ok((fields@[i].0@, view)),
                        Err(mismatch) => Err(mismatch),
                    }
                };
            match result {
                Ok(view) => view matches OrderedView::Struct(views) && gathers(
                    each,
                    fields@.len(),
                    Ok(views),
                ),
                Err(mismatch) => gathers(each, fields@.len(), Err(mismatch)),
            }
        }),
{
    lemma_fields_gathered(fields@, object@, fields@.len());
}

proof fn lemma_fields_gathered(
    fields: Seq<(String, AbiType)>,
    object: Map<Seq<char>, InputValue>,
    n: nat,
)
    requires
        n <= fields.len(),
    ensures
        gathers(
            |i: int|
                if !object.contains_key(fields[i].0@) {
                    Err(InputMismatch::MissingField)
                } else {
                    match ordered(fields[i].1, object[fields[i].0@]) {
                        Ok(view) => Ok((fields[i].0@, view)),
                        Err(mismatch) => Err(mismatch),
                    }
                },
            n,
            ordered_fields(fields, object, n),
        ),
    decreases n,
{
    let each = |i: int|
        if !object.contains_key(fields[i].0@) {
            Err(InputMismatch::MissingField)
        } else {
            match ordered(fields[i].1, object[fields[i].0@]) {
                Ok(view) => Ok((fields[i].0@, view)),
                Err(mismatch) => Err(mismatch),
            }
        };
    if n > 0 {
        lemma_fields_gathered(fields, object, (n - 1) as nat);
        match ordered_fields(fields, object, n) {
            Ok(items) => {
                let before = ordered_fields(fields, object, (n - 1) as nat)->Ok_0;
                assert forall|i: int| 0 <= i < n implies #[trigger] each(i) == Ok::<
                    (Seq<char>, OrderedView),
                    InputMismatch,
                >(items[i]) by {
                    if i < n - 1 {
                        assert(each(i) == Ok::<(Seq<char>, OrderedView), InputMismatch>(before[i]));
                    }
                }
            },
            Err(mismatch) => {
                if ordered_fields(fields, object, (n - 1) as nat) is Ok {
                    assert(each(n - 1) == Err::<(Seq<char>, OrderedView), InputMismatch>(mismatch));
                }
            },
        }
    }
}

/// Several values are for an array or a tuple, and a structure is for a structure; for any other
/// type they are refused as such.
pub proof fn law_other_shapes_are_refused(typ: AbiType, value: InputValue)
    requires
        value is Vec && !(typ is Array) && !(typ is Tuple) || value is Struct && !(typ is Struct),
    ensures
        ordered(typ, value) == Err::<OrderedView, _>(InputMismatch::OtherShape),
{
}

/// The inputs of a program are one for each parameter, looked up by its name and brought into order
/// at its type, then the value to be returned, where the program returns one and it is given. The
/// first input that is missing or is not of its type decides; the value to be returned comes last.
pub proof fn law_inputs_are_looked_up_by_name(abi: Abi, inputs: Map<Seq<char>, InputValue>)
    ensures
        ({
            let n = abi.parameters@.len();
            let returned = abi.return_type is Some && inputs.contains_key("return"@);
            let each = |i: int|
                if i == n {
                    ordered(abi.return_type->0, inputs["return"@])
                } else if !inputs.contains_key(abi.parameters@[i].name@) {
                    Err(InputMismatch::MissingParameter)
                } else {
                    ordered(abi.parameters@[i].typ, inputs[abi.parameters@[i].name@])
                };
            gathers(
                each,
                if returned {
                    n + 1
                } else {
                    n
                },
                ordered_inputs(abi, inputs),
            )
        }),
{
    let n = abi.parameters@.len();
    let each = |i: int|
        if i == n {
            ordered(abi.return_type->0, inputs["return"@])
        } else if !inputs.contains_key(abi.parameters@[i].name@) {
            Err(InputMismatch::MissingParameter)
        } else {
            ordered(abi.parameters@[i].typ, inputs[abi.parameters@[i].name@])
        };
    let first = |i: int|
        if !inputs.contains_key(abi.parameters@[i].name@) {
            Err(InputMismatch::MissingParameter)
        } else {
            ordered(abi.parameters@[i].typ, inputs[abi.parameters@[i].name@])
        };
    lemma_parameters_gathered(abi.parameters@, inputs, n);
    let views = ordered_parameters(abi.parameters@, inputs, n);
    assert forall|i: int| 0 <= i < n implies #[trigger] each(i) == first(i) by {}
    match views {
        Ok(items) => {
            assert forall|i: int| 0 <= i < n implies #[trigger] each(i) == Ok::<
                OrderedView,
                InputMismatch,
            >(items[i]) by {
                assert(first(i) == Ok::<OrderedView, InputMismatch>(items[i]));
            }
            assert(each(n as int) == ordered(abi.return_type->0, inputs["return"@]));
        },
        Err(mismatch) => {
            let i = choose|i: int|
                0 <= i < n && #[trigger] first(i) == Err::<OrderedView, InputMismatch>(mismatch)
                    && forall|j: int| 0 <= j < i ==> #[trigger] first(j) is Ok;
            assert(each(i) == Err::<OrderedView, InputMismatch>(mismatch));
            assert forall|j: int| 0 <= j < i implies #[trigger] each(j) is Ok by {
                assert(first(j) is Ok);
            }
        },
    }
}

proof fn lemma_parameters_gathered(
    parameters: Seq<AbiParameter>,
    inputs: Map<Seq<char>, InputValue>,
    n: nat,
)
    ensures
        gathers(
            |i: int|
                if !inputs.contains_key(parameters[i].name@) {
                    Err(InputMismatch::MissingParameter)
                } else {
                    ordered(parameters[i].typ, inputs[parameters[i].name@])
                },
            n,
            ordered_parameters(parameters, inputs, n),
        ),
    decreases n,
{
    let each = |i: int|
        if !inputs.contains_key(parameters[i].name@) {
            Err(InputMismatch::MissingParameter)
        } else {
            ordered(parameters[i].typ, inputs[parameters[i].name@])
        };
    if n > 0 {
        lemma_parameters_gathered(parameters, inputs, (n - 1) as nat);
        match ordered_parameters(parameters, inputs, n) {
            Ok(items) => {
                let before = ordered_parameters(parameters, inputs, (n - 1) as nat)->Ok_0;
                assert forall|i: int| 0 <= i < n implies #[trigger] each(i) == Ok::<
                    OrderedView,
                    InputMismatch,
                >(items[i]) by {
                    if i < n - 1 {
                        assert(each(i) == Ok::<OrderedView, InputMismatch>(before[i]));
                    }
                }
            },
            Err(mismatch) => {
                if ordered_parameters(parameters, inputs, (n - 1) as nat) is Ok {
                    assert(each(n - 1) == Err::<OrderedView, InputMismatch>(mismatch));
                }
            },
        }
    }
}

/// Inputs are accepted exactly where they can be brought into order, and else refused with the
/// mismatch that stands in the way.
pub proof fn law_inputs_are_accepted_where_they_have_an_order(
    abi: &Abi,
    inputs: &TextMap<InputValue>,
    checked: Result<(), InputMismatch>,
)
    requires
        call_ensures(check_inputs, (abi, inputs), checked),
    ensures
        checked is Ok <==> ordered_inputs(*abi, inputs@) is Ok,
        checked matches Err(mismatch) ==> ordered_inputs(*abi, inputs@) == Err::<
            Seq<OrderedView>,
            _,
        >(mismatch),
{
}

} // verus!
