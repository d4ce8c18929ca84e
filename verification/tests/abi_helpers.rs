//! Inputs brought into the order of the ABI.

use mavros_compiler::abi_helpers::{
    check_inputs, ordered_params_from_btreemap, Abi, AbiParameter, AbiType, InputMismatch,
    InputValue, InputValueOrdered,
};
use mavros_compiler::field::{Field, FieldElement};
use mavros_compiler::text_map::TextMap;

fn abi(parameters: Vec<(&str, AbiType)>, return_type: Option<AbiType>) -> Abi {
    let parameters = parameters
        .into_iter()
        .map(|(name, typ)| AbiParameter { name: name.to_string(), typ })
        .collect();
    Abi { parameters, return_type }
}

fn inputs(values: Vec<(&str, InputValue)>) -> TextMap<InputValue> {
    let mut map = TextMap::new();
    for (name, value) in values {
        map.insert(name.to_string(), value);
    }
    map
}

fn field(n: u64) -> InputValue {
    InputValue::Field(FieldElement { le_bytes: n.to_le_bytes().to_vec() })
}

fn element(n: u64) -> InputValueOrdered {
    InputValueOrdered::Field(Field::from_u64(n))
}

fn array(length: u32, typ: AbiType) -> AbiType {
    AbiType::Array { length, typ: Box::new(typ) }
}

fn text(text: &str) -> InputValue {
    InputValue::String(text.to_string())
}

/// The inputs in order, if they are inputs of the program.
fn ordered(
    abi: &Abi,
    inputs: &TextMap<InputValue>,
) -> Result<Vec<InputValueOrdered>, InputMismatch> {
    check_inputs(abi, inputs)?;
    Ok(ordered_params_from_btreemap(abi, inputs))
}

#[test]
fn inputs_follow_the_parameters() {
    let abi = abi(vec![("zebra", AbiType::Field), ("apple", AbiType::Boolean)], None);
    let inputs = inputs(vec![("apple", field(1)), ("zebra", field(26)), ("other", text("?"))]);
    assert_eq!(ordered(&abi, &inputs), Ok(vec![element(26), element(1)]));
}

#[test]
fn a_given_return_value_comes_last() {
    let returning = abi(vec![("x", AbiType::Field)], Some(array(2, AbiType::Field)));
    let pair = || InputValue::Vec(vec![field(5), field(6)]);
    let given = inputs(vec![("return", pair()), ("x", field(4))]);
    let expected = InputValueOrdered::Vec(vec![element(5), element(6)]);
    assert_eq!(ordered(&returning, &given), Ok(vec![element(4), expected]));
    let not_given = inputs(vec![("x", field(4))]);
    assert_eq!(ordered(&returning, &not_given), Ok(vec![element(4)]));
    let silent = abi(vec![("x", AbiType::Field)], None);
    assert_eq!(ordered(&silent, &given), Ok(vec![element(4)]));
}

#[test]
fn fields_follow_the_type() {
    let point = AbiType::Struct {
        fields: vec![("y".to_string(), AbiType::Field), ("x".to_string(), AbiType::Field)],
    };
    let abi = abi(vec![("p", point)], None);
    let object = inputs(vec![("x", field(1)), ("y", field(2)), ("z", field(3))]);
    let expected = InputValueOrdered::Struct(vec![
        ("y".to_string(), element(2)),
        ("x".to_string(), element(1)),
    ]);
    let given = inputs(vec![("p", InputValue::Struct(object))]);
    assert_eq!(ordered(&abi, &given), Ok(vec![expected]));
}

#[test]
fn tuples_are_named_by_position() {
    let fields = || (0..12).map(|_| AbiType::Field).collect();
    let abi = abi(vec![("t", AbiType::Tuple { fields: fields() })], None);
    let values = (0..12).map(|i| field(100 + i)).collect();
    let given = inputs(vec![("t", InputValue::Vec(values))]);
    let expected = (0..12).map(|i| (format!("{i}"), element(100 + i))).collect();
    assert_eq!(ordered(&abi, &given), Ok(vec![InputValueOrdered::Struct(expected)]));
}

#[test]
fn strings_become_their_bytes() {
    let abi = abi(vec![("s", AbiType::String { length: 3 })], None);
    let expected = InputValueOrdered::Vec(vec![element(97), element(0xc3), element(0xa9)]);
    assert_eq!(ordered(&abi, &inputs(vec![("s", text("aé"))])), Ok(vec![expected]));
    let long = ordered(&abi, &inputs(vec![("s", text("aéé"))]));
    assert_eq!(long, Err(InputMismatch::StringLength));
}

/// The length that the type gives an array is not looked at, nor is the type of a number.
#[test]
fn only_the_shape_is_looked_at() {
    let abi = abi(
        vec![("a", array(9, AbiType::Field)), ("n", AbiType::String { length: 7 })],
        None,
    );
    let given = inputs(vec![("a", InputValue::Vec(vec![field(1)])), ("n", field(2))]);
    let expected = vec![InputValueOrdered::Vec(vec![element(1)]), element(2)];
    assert_eq!(ordered(&abi, &given), Ok(expected));
}

#[test]
fn numbers_are_reduced() {
    let modulus: [u64; 4] =
        [0x43e1f593f0000001, 0x2833e84879b97091, 0xb85045b68181585d, 0x30644e72e131a029];
    let mut le_bytes = vec![];
    for limb in modulus {
        le_bytes.extend_from_slice(&limb.to_le_bytes());
    }
    le_bytes[0] += 8;
    let abi = abi(vec![("x", AbiType::Field)], None);
    let given = inputs(vec![("x", InputValue::Field(FieldElement { le_bytes }))]);
    assert_eq!(ordered(&abi, &given), Ok(vec![element(8)]));
}

#[test]
fn other_inputs_do_not_match() {
    let takes = |typ| abi(vec![("x", typ)], None);
    let gives = |value| inputs(vec![("x", value)]);
    let empty = || InputValue::Vec(vec![]);
    let missing = ordered(&takes(AbiType::Field), &inputs(vec![]));
    assert_eq!(missing, Err(InputMismatch::MissingParameter));
    let unlike = ordered(&takes(AbiType::Field), &gives(text("1")));
    assert_eq!(unlike, Err(InputMismatch::NotAString));
    let unlike = ordered(&takes(AbiType::Field), &gives(empty()));
    assert_eq!(unlike, Err(InputMismatch::OtherShape));
    let pair = AbiType::Tuple { fields: vec![AbiType::Field, AbiType::Field] };
    let short = ordered(&takes(pair), &gives(InputValue::Vec(vec![field(1)])));
    assert_eq!(short, Err(InputMismatch::TupleLength));
    let point = AbiType::Struct { fields: vec![("y".to_string(), AbiType::Field)] };
    let object = InputValue::Struct(inputs(vec![("x", field(1))]));
    let partial = ordered(&takes(point), &gives(object));
    assert_eq!(partial, Err(InputMismatch::MissingField));
    let nested = array(1, AbiType::String { length: 1 });
    let long = ordered(&takes(nested), &gives(InputValue::Vec(vec![text("ab")])));
    assert_eq!(long, Err(InputMismatch::StringLength));
    let returning = abi(vec![], Some(AbiType::Field));
    let unlike = ordered(&returning, &inputs(vec![("return", text("a"))]));
    assert_eq!(unlike, Err(InputMismatch::NotAString));
}

/// Of several mismatches, the one that is met first is told.
#[test]
fn the_first_mismatch_is_told() {
    let both = abi(vec![("x", AbiType::String { length: 1 }), ("y", AbiType::Field)], None);
    assert_eq!(
        ordered(&both, &inputs(vec![("x", text("long"))])),
        Err(InputMismatch::StringLength)
    );
    assert_eq!(
        ordered(&both, &inputs(vec![("x", text("a"))])),
        Err(InputMismatch::MissingParameter)
    );
}
