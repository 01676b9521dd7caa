//! Binary digits of numbers.

use vstd::prelude::*;

verus! {

/// Two to the power `n`.
pub open spec fn two_pow(n: nat) -> nat
    decreases n,
{
    if n == 0 {
        1
    } else {
        2 * two_pow((n - 1) as nat)
    }
}

/// The binary digit of weight `2^index`.
pub open spec fn bit(number: nat, index: nat) -> nat
    decreases index,
{
    if index == 0 {
        number % 2
    } else {
        bit(number / 2, (index - 1) as nat)
    }
}

/// The number with these binary digits, the lowest first.
pub open spec fn bits_value(digits: Seq<nat>) -> nat
    decreases digits.len(),
{
    if digits.len() == 0 {
        0
    } else {
        digits[0] + 2 * bits_value(digits.drop_first())
    }
}

/// The lowest `width` binary digits of a number.
pub open spec fn low_bits(number: nat, width: nat) -> Seq<nat> {
    Seq::new(width, |index: int| bit(number, index as nat))
}

/// Whether these are binary digits.
pub open spec fn binary(digits: Seq<nat>) -> bool {
    forall|i: int| 0 <= i < digits.len() ==> #[trigger] digits[i] < 2
}

/// A binary digit is zero or one.
pub proof fn lemma_bit_range(number: nat, index: nat)
    ensures
        bit(number, index) < 2,
    decreases index,
{
    if index > 0 {
        lemma_bit_range(number / 2, (index - 1) as nat);
    }
}

/// Powers of two grow.
pub proof fn lemma_two_pow_monotone(a: nat, b: nat)
    requires
        a <= b,
    ensures
        1 <= two_pow(a) <= two_pow(b),
    decreases b,
{
    if a < b {
        lemma_two_pow_monotone(a, (b - 1) as nat);
    } else if b > 0 {
        lemma_two_pow_monotone((a - 1) as nat, (b - 1) as nat);
    }
}

/// Two to the power 64.
pub proof fn lemma_two_pow_64()
    ensures
        two_pow(64) == 0x1_0000_0000_0000_0000,
        two_pow(63) == 0x8000_0000_0000_0000,
        two_pow(0) == 1,
{
    reveal_with_fuel(two_pow, 65);
}

/// Binary digits spell a number below their power of two.
pub proof fn lemma_bits_value_bound(digits: Seq<nat>)
    requires
        binary(digits),
    ensures
        bits_value(digits) < two_pow(digits.len()),
    decreases digits.len(),
{
    if digits.len() > 0 {
        let rest = digits.drop_first();
        assert forall|i: int| 0 <= i < rest.len() implies #[trigger] rest[i] < 2 by {
            assert(rest[i] == digits[i + 1]);
        }
        lemma_bits_value_bound(rest);
        assert(digits[0] < 2);
    }
}

/// The digits of the number that digits spell are those digits.
pub proof fn lemma_bit_of_value(digits: Seq<nat>, index: nat)
    requires
        binary(digits),
        index < digits.len(),
    ensures
        bit(bits_value(digits), index) == digits[index as int],
    decreases digits.len(),
{
    let rest = digits.drop_first();
    assert(digits[0] < 2);
    assert forall|i: int| 0 <= i < rest.len() implies #[trigger] rest[i] < 2 by {
        assert(rest[i] == digits[i + 1]);
    }
    if index > 0 {
        lemma_bit_of_value(rest, (index - 1) as nat);
        assert(bits_value(digits) / 2 == bits_value(rest));
    }
}

/// A number below `2^width` is spelled by its lowest `width` digits.
pub proof fn lemma_value_of_bits(number: nat, width: nat)
    requires
        number < two_pow(width),
    ensures
        bits_value(low_bits(number, width)) == number,
        binary(low_bits(number, width)),
    decreases width,
{
    if width > 0 {
        lemma_value_of_bits(number / 2, (width - 1) as nat);
        assert(low_bits(number, width).drop_first() =~= low_bits(number / 2, (width - 1) as nat));
        assert forall|i: int| 0 <= i < low_bits(number, width).len() implies #[trigger] low_bits(
            number,
            width,
        )[i] < 2 by {
            lemma_bit_range(number, i as nat);
        }
    }
}

proof fn lemma_shift_bit(number: u64, index: u64)
    requires
        index < 64,
    ensures
        ((number >> index) & 1) == bit(number as nat, index as nat),
    decreases index,
{
    if index == 0 {
        assert((number >> 0u64) & 1 == number % 2) by (bit_vector);
    } else {
        let half: u64 = number / 2;
        let before: u64 = (index - 1) as u64;
        lemma_shift_bit(half, before);
        assert((number >> index) & 1 == (half >> before) & 1) by (bit_vector)
            requires
                0 < index < 64,
                half == number / 2,
                before == index - 1,
        ;
    }
}

/// The binary digit of weight `2^index`.
pub fn bit_of(number: u64, index: u64) -> (digit: u64)
    requires
        index < 64,
    ensures
        digit == bit(number as nat, index as nat),
        digit < 2,
{
    proof {
        lemma_shift_bit(number, index);
        lemma_bit_range(number as nat, index as nat);
    }
    (number >> index) & 1
}

/// Whether `width` is the count of binary digits that numbers up to
/// `number` take.
pub open spec fn is_bit_width(number: nat, width: nat) -> bool {
    number < two_pow(width) && (width == 0 || number >= two_pow((width - 1) as nat))
}

/// The count of binary digits of a number.
pub fn bit_width(number: u64) -> (width: u8)
    ensures
        width <= 64,
        is_bit_width(number as nat, width as nat),
{
    let mut width: u8 = 0;
    let mut bound: u128 = 1;
    proof {
        lemma_two_pow_64();
    }
    while bound <= number as u128
        invariant
            width <= 64,
            bound == two_pow(width as nat),
            two_pow(64) == 0x1_0000_0000_0000_0000,
            width == 0 || number >= two_pow((width - 1) as nat),
        decreases 64 - width,
    {
        proof {
            if width == 64 {
                assert(bound > number);
            }
            lemma_two_pow_monotone((width + 1) as nat, 64);
        }
        bound = bound * 2;
        width += 1;
    }
    width
}

/// A number has one width.
pub proof fn lemma_bit_width_unique(number: nat, a: nat, b: nat)
    requires
        is_bit_width(number, a),
        is_bit_width(number, b),
    ensures
        a == b,
{
    if a < b {
        lemma_two_pow_monotone(a, (b - 1) as nat);
    } else if b < a {
        lemma_two_pow_monotone(b, (a - 1) as nat);
    }
}

} // verus!
