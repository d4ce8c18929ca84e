//! Elements of the scalar field of the bn254 curve, the field in which constraints are written.

use ark_ff::{PrimeField, UniformRand};
use vstd::prelude::*;

verus! {

/// The order of the field.
pub open spec fn modulus() -> nat {
    21888242871839275222246405745257275088548364400416034343698204186575808495617nat
}

/// The number that `bytes` spell in base 256, least significant byte first.
pub open spec fn le_value(bytes: Seq<u8>) -> nat
    decreases bytes.len(),
{
    if bytes.len() == 0 {
        0
    } else {
        bytes[0] as nat + 256 * le_value(bytes.drop_first())
    }
}

/// A field element, held as its representative in `0..modulus()`: four limbs in base 2^64,
/// least significant first.
#[derive(Clone, Copy, Debug, PartialEq, Eq)]
pub struct Field {
    pub limbs: [u64; 4],
}

impl View for Field {
    type V = nat;

    /// The number that the limbs spell.
    open spec fn view(&self) -> nat {
        (self.limbs@[0] + 0x1_0000_0000_0000_0000 * (self.limbs@[1] + 0x1_0000_0000_0000_0000 * (
        self.limbs@[2] + 0x1_0000_0000_0000_0000 * self.limbs@[3]))) as nat
    }
}

/// An element of the field that a program was compiled for, as the little-endian bytes of its
/// representative. The field may be another than bn254's.
#[derive(Debug, PartialEq, Eq)]
pub struct FieldElement {
    pub le_bytes: Vec<u8>,
}

/// Calls `ark_ff::PrimeField::from_le_bytes_mod_order` for `ark_bn254::Fr`. Claims that the
/// element it gives is the number that the bytes spell, reduced by the modulus, and that
/// `into_bigint` hands out its representative below the modulus.
#[verifier::external_body]
fn fr_from_le_bytes(bytes: &[u8]) -> (element: Field)
    ensures
        element@ == le_value(bytes@) % modulus(),
{
    let element = ark_bn254::Fr::from_le_bytes_mod_order(bytes);
    Field { limbs: element.into_bigint().0 }
}

/// Calls `<ark_bn254::Fr as From<u64>>::from`. Claims that the element it gives is the number
/// itself, which is always below the modulus.
#[verifier::external_body]
fn fr_from_u64(number: u64) -> (element: Field)
    ensures
        element@ == number,
{
    let element = ark_bn254::Fr::from(number);
    Field { limbs: element.into_bigint().0 }
}

/// Calls `ark_ff::UniformRand::rand` for `ark_bn254::Fr` with `rand::thread_rng`. Claims of the
/// element drawn only that it is one: which one is left to chance.
#[verifier::external_body]
fn fr_rand() -> (element: Field)
    ensures
        element@ < modulus(),
{
    let element = ark_bn254::Fr::rand(&mut rand::thread_rng());
    Field { limbs: element.into_bigint().0 }
}

impl Field {
    /// The element that `number` stands for.
    pub fn from_u64(number: u64) -> (element: Field)
        ensures
            element@ == number,
    {
        fr_from_u64(number)
    }

    /// An element drawn at random.
    pub fn random() -> (element: Field)
        ensures
            element@ < modulus(),
    {
        fr_rand()
    }
}

/// Carries an element of the source field over to bn254's, through its representative. It does
/// not matter which field the element came from.
pub fn noir_field_to_bn254(repr: &FieldElement) -> (element: Field)
    ensures
        element@ == le_value(repr.le_bytes@) % modulus(),
{
    fr_from_le_bytes(repr.le_bytes.as_slice())
}

/// An element whose representative lies below bn254's modulus keeps its representative: every
/// element of a field no larger than bn254's is carried over unchanged.
pub proof fn law_small_elements_are_kept(repr: Seq<u8>)
    requires
        le_value(repr) < modulus(),
    ensures
        le_value(repr) % modulus() == le_value(repr),
{
    vstd::arithmetic::div_mod::lemma_small_mod(le_value(repr), modulus());
}

/// Elements whose representatives lie below bn254's modulus stay apart: no two different ones are
/// carried over to the same element.
pub proof fn law_small_elements_stay_apart(a: Seq<u8>, b: Seq<u8>)
    requires
        le_value(a) < modulus(),
        le_value(b) < modulus(),
        le_value(a) % modulus() == le_value(b) % modulus(),
    ensures
        le_value(a) == le_value(b),
{
    law_small_elements_are_kept(a);
    law_small_elements_are_kept(b);
}

/// Zero bytes at the most significant end change nothing: the width in which the source field
/// writes its representatives does not matter.
pub proof fn law_width_does_not_matter(repr: Seq<u8>, padding: nat)
    ensures
        le_value(repr + Seq::new(padding, |i: int| 0u8)) == le_value(repr),
    decreases repr.len(), padding,
{
    let zeros = Seq::new(padding, |i: int| 0u8);
    if repr.len() > 0 {
        law_width_does_not_matter(repr.drop_first(), padding);
        assert((repr + zeros).drop_first() =~= repr.drop_first() + zeros);
    } else if padding > 0 {
        let fewer = Seq::new((padding - 1) as nat, |i: int| 0u8);
        law_width_does_not_matter(repr, (padding - 1) as nat);
        assert((repr + zeros).drop_first() =~= repr + fewer);
    } else {
        assert(repr + zeros =~= repr);
    }
}

/// An element that is carried over lies below bn254's modulus and differs from its representative by
/// a multiple of that; a number that is taken as an element is that number.
pub proof fn law_elements_are_carried_over(
    repr: &FieldElement,
    carried: Field,
    number: u64,
    taken: Field,
)
    requires
        call_ensures(noir_field_to_bn254, (repr,), carried),
        call_ensures(Field::from_u64, (number,), taken),
    ensures
        carried@ < modulus(),
        (le_value(repr.le_bytes@) - carried@) % (modulus() as int) == 0,
        taken@ == number,
{
    let n = le_value(repr.le_bytes@) as int;
    let m = modulus() as int;
    let q = n / m;
    vstd::arithmetic::div_mod::lemma_fundamental_div_mod(n, m);
    assert(n - n % m == q * m) by (nonlinear_arith)
        requires
            n == m * q + n % m,
    ;
    vstd::arithmetic::div_mod::lemma_mod_multiples_basic(q, m);
}

/// Each byte counts 256 times what the one before it does: a byte that is added at the most
/// significant end adds its own value so many times over.
pub proof fn law_bytes_count_by_position(bytes: Seq<u8>, byte: u8)
    ensures
        le_value(bytes.push(byte)) == le_value(bytes) + byte * vstd::arithmetic::power::pow(
            256,
            bytes.len(),
        ),
    decreases bytes.len(),
{
    reveal(vstd::arithmetic::power::pow);
    let more = bytes.push(byte);
    if bytes.len() == 0 {
        assert(more.drop_first() =~= seq![]);
        assert(le_value(more.drop_first()) == 0);
    } else {
        law_bytes_count_by_position(bytes.drop_first(), byte);
        assert(more.drop_first() =~= bytes.drop_first().push(byte));
        let p = vstd::arithmetic::power::pow(256, (bytes.len() - 1) as nat);
        assert(vstd::arithmetic::power::pow(256, bytes.len()) == 256 * p);
        assert(256 * (byte * p) == byte * (256 * p)) by (nonlinear_arith);
    }
}

} // verus!
