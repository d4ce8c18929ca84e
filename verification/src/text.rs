//! Text: comparison, and numbers written in decimal.

use vstd::prelude::*;
use vstd::utf8::*;

verus! {

/// Whether two texts are the same.
pub fn same_text(a: &str, b: &str) -> (same: bool)
    ensures
        same == (a@ == b@),
{
    let x = a.as_bytes();
    let y = b.as_bytes();
    if x.len() != y.len() {
        return false;
    }
    let mut i: usize = 0;
    while i < x.len()
        invariant
            i <= x@.len(),
            x@.len() == y@.len(),
            x@ == encode_utf8(a@),
            y@ == encode_utf8(b@),
            forall|j: int| 0 <= j < i ==> x@[j] == y@[j],
        decreases x@.len() - i,
    {
        if x[i] != y[i] {
            return false;
        }
        i += 1;
    }
    proof {
        assert(x@ =~= y@);
        encode_utf8_decode_utf8(a@);
        encode_utf8_decode_utf8(b@);
    }
    true
}

/// The digit `d` as a character.
pub open spec fn digit(d: nat) -> char {
    ('0' as nat + d) as char
}

/// `number` in decimal, without leading zeros.
pub open spec fn decimal(number: nat) -> Seq<char>
    decreases number,
{
    if number < 10 {
        seq![digit(number)]
    } else {
        decimal(number / 10).push(digit(number % 10))
    }
}

/// Writes a number in decimal.
pub fn usize_to_string(number: usize) -> (text: String)
    ensures
        text@ == decimal(number as nat),
    decreases number,
{
    let digits = ["0", "1", "2", "3", "4", "5", "6", "7", "8", "9"];
    proof {
        reveal_strlit("0");
        reveal_strlit("1");
        reveal_strlit("2");
        reveal_strlit("3");
        reveal_strlit("4");
        reveal_strlit("5");
        reveal_strlit("6");
        reveal_strlit("7");
        reveal_strlit("8");
        reveal_strlit("9");
    }
    let last = digits[number % 10];
    assert(last@ =~= seq![digit((number % 10) as nat)]);
    if number < 10 {
        last.to_owned()
    } else {
        let text = usize_to_string(number / 10).concat(last);
        assert(text@ =~= decimal(number as nat));
        text
    }
}

/// The number that decimal digits spell, most significant first.
pub open spec fn spelled(digits: Seq<char>) -> nat
    decreases digits.len(),
{
    if digits.len() == 0 {
        0
    } else {
        10 * spelled(digits.drop_last()) + (digits.last() as nat - '0' as nat) as nat
    }
}

/// A number in decimal is made of digits, spells the number, and has no zero in front unless it is
/// zero itself.
pub proof fn law_decimals_spell_the_number(number: nat)
    ensures
        decimal(number).len() > 0,
        forall|i: int|
            0 <= i < decimal(number).len() ==> '0' <= (#[trigger] decimal(number)[i]) <= '9',
        spelled(decimal(number)) == number,
        decimal(number).len() > 1 ==> decimal(number)[0] != '0',
        number > 0 ==> decimal(number)[0] != '0',
    decreases number,
{
    reveal_with_fuel(spelled, 2);
    let text = decimal(number);
    if number < 10 {
        assert(text.drop_last() =~= seq![]);
    } else {
        law_decimals_spell_the_number(number / 10);
        assert(text.drop_last() =~= decimal(number / 10));
    }
}

/// Two numbers that are written alike are the same.
pub proof fn law_different_numbers_are_written_differently(a: nat, b: nat)
    requires
        decimal(a) == decimal(b),
    ensures
        a == b,
{
    law_decimals_spell_the_number(a);
    law_decimals_spell_the_number(b);
}

} // verus!
