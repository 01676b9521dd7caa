//! Encodings of vector elements. Floating-point numbers are their bits.
//!
//! One vector's value bytes only: which vectors are there, and where the
//! bytes go, is for others to say.

use vstd::prelude::*;

use crate::bytes;
use crate::bytes::{get_le, put_le};

verus! {

/// The bytes of an i8 vector's scale and offset.
pub const I8_METADATA_LEN: usize = 8;

/// How often a rotation shuffles.
pub const B1_ROTATION_ROUNDS: usize = 4;

/// Why vector bytes cannot be decoded.
#[derive(Debug, Clone, Copy, PartialEq, Eq)]
pub enum VectorEncodingError {
    /// The bytes are not as many as the encoding takes.
    InvalidLength { encoding: &'static str, actual: usize, expected: usize },
    /// The scale, the offset or a code of an i8 vector is none.
    InvalidI8,
    /// Bits behind the last dimension are not zero.
    NonZeroB1Padding { dimension: usize },
    /// A query without a direction has no cosine distance.
    ZeroNormQuery,
}

/// Whether an error says that bytes of an encoding are not as many as they should be.
pub open spec fn is_wrong_length(
    error: VectorEncodingError,
    name: Seq<char>,
    given: nat,
    wanted: nat,
) -> bool {
    error matches VectorEncodingError::InvalidLength { encoding, actual, expected } && encoding@
        == name && actual == given && expected == wanted
}

/// The number closest to `x / unit`, the even one of two.
pub open spec fn nearest_even(x: nat, unit: nat) -> nat {
    let below = x / unit;
    let rest = x % unit;
    if 2 * rest > unit || (2 * rest == unit && below % 2 == 1) {
        below + 1
    } else {
        below
    }
}

/// Two to a power below thirty-two.
pub open spec fn two_to(n: nat) -> nat
    decreases n,
{
    if n == 0 {
        1
    } else {
        2 * two_to((n - 1) as nat)
    }
}

/// The exponent field of a single.
pub open spec fn exponent_of(single: u32) -> nat {
    (single as nat / 0x80_0000) % 0x100
}

/// The fraction field of a single.
pub open spec fn fraction_of(single: u32) -> nat {
    single as nat % 0x80_0000
}

/// The magnitude of the half that is closest to a single's, in bits; beyond
/// the largest half it is infinite.
pub open spec fn half_magnitude(single: u32) -> nat {
    let exponent = exponent_of(single);
    let fraction = fraction_of(single);
    if exponent == 0xff {
        0x7c00 + if fraction != 0 {
            1nat
        } else {
            0nat
        }
    } else if exponent > 142 {
        0x7c00
    } else if exponent >= 113 {
        nearest_even(((exponent - 112) * 0x80_0000 + fraction) as nat, 0x2000)
    } else if exponent < 102 {
        0
    } else {
        nearest_even(0x80_0000 + fraction, two_to((126 - exponent) as nat))
    }
}

/// The half that is closest to a single, in bits.
pub open spec fn half_of(single: u32) -> nat {
    half_magnitude(single) + if single >= 0x8000_0000 {
        0x8000nat
    } else {
        0nat
    }
}

/// How far a small half's fraction is from one that begins with a one.
pub open spec fn missing_bits(fraction: nat) -> nat {
    if fraction >= 0x200 {
        1
    } else if fraction >= 0x100 {
        2
    } else if fraction >= 0x80 {
        3
    } else if fraction >= 0x40 {
        4
    } else if fraction >= 0x20 {
        5
    } else if fraction >= 0x10 {
        6
    } else if fraction >= 8 {
        7
    } else if fraction >= 4 {
        8
    } else if fraction >= 2 {
        9
    } else {
        10
    }
}

/// A small half's fraction, moved so that it begins with a one.
pub open spec fn normalized(fraction: nat) -> nat {
    if fraction >= 0x200 {
        fraction * 2
    } else if fraction >= 0x100 {
        fraction * 4
    } else if fraction >= 0x80 {
        fraction * 8
    } else if fraction >= 0x40 {
        fraction * 0x10
    } else if fraction >= 0x20 {
        fraction * 0x20
    } else if fraction >= 0x10 {
        fraction * 0x40
    } else if fraction >= 8 {
        fraction * 0x80
    } else if fraction >= 4 {
        fraction * 0x100
    } else if fraction >= 2 {
        fraction * 0x200
    } else {
        fraction * 0x400
    }
}

/// The single that a half's magnitude is, in bits.
pub open spec fn single_magnitude(half: u16) -> nat {
    let exponent = (half as nat / 0x400) % 0x20;
    let fraction = half as nat % 0x400;
    if exponent == 0 {
        if fraction == 0 {
            0
        } else {
            let shift = missing_bits(fraction);
            ((113 - shift) * 0x80_0000 + (normalized(fraction) - 0x400) * 0x2000) as nat
        }
    } else if exponent == 0x1f {
        0x7f80_0000 + fraction * 0x2000
    } else {
        (exponent + 112) * 0x80_0000 + fraction * 0x2000
    }
}

/// The single that a half is, in bits.
pub open spec fn single_of(half: u16) -> nat {
    single_magnitude(half) + if half >= 0x8000 {
        0x8000_0000nat
    } else {
        0nat
    }
}

/// Whether a half is no number.
pub open spec fn half_is_nan(half: u16) -> bool {
    (half as nat / 0x400) % 0x20 == 0x1f && half as nat % 0x400 != 0
}

proof fn lemma_two_to()
    ensures
        two_to(1) == 2,
        two_to(2) == 4,
        two_to(3) == 8,
        two_to(4) == 0x10,
        two_to(5) == 0x20,
        two_to(6) == 0x40,
        two_to(7) == 0x80,
        two_to(8) == 0x100,
        two_to(9) == 0x200,
        two_to(10) == 0x400,
        two_to(13) == 0x2000,
        two_to(14) == 0x4000,
        two_to(15) == 0x8000,
        two_to(16) == 0x1_0000,
        two_to(17) == 0x2_0000,
        two_to(18) == 0x4_0000,
        two_to(19) == 0x8_0000,
        two_to(20) == 0x10_0000,
        two_to(21) == 0x20_0000,
        two_to(22) == 0x40_0000,
        two_to(23) == 0x80_0000,
        two_to(24) == 0x100_0000,
{
    reveal_with_fuel(two_to, 26);
}

/// A half that is a number is the closest to its single: decoding and
/// encoding again changes nothing.
#[verifier::spinoff_prover]
#[verifier::rlimit(60)]
pub proof fn law_halves_round_trip(half: u16)
    requires
        !half_is_nan(half),
    ensures
        single_of(half) <= u32::MAX,
        half_of(single_of(half) as u32) == half,
{
    lemma_two_to();
    let exponent = (half as nat / 0x400) % 0x20;
    let fraction = half as nat % 0x400;
    let single = single_of(half) as u32;
    if exponent == 0 && fraction != 0 {
        let shift = missing_bits(fraction);
        let unit = two_to(13 + shift);
        lemma_normalized(fraction);
        assert(exponent_of(single) == 113 - shift);
        assert(fraction_of(single) == (normalized(fraction) - 0x400) * 0x2000);
        assert(0x80_0000 + fraction_of(single) == fraction * unit);
        lemma_nearest_exact(fraction, unit);
    }
}

/// A multiple of a unit is closest to itself.
proof fn lemma_nearest_exact(number: nat, unit: nat)
    requires
        unit > 0,
    ensures
        nearest_even(number * unit, unit) == number,
{
    vstd::arithmetic::div_mod::lemma_div_multiples_vanish(number as int, unit as int);
    vstd::arithmetic::div_mod::lemma_mod_multiples_basic(number as int, unit as int);
    vstd::arithmetic::mul::lemma_mul_is_commutative(number as int, unit as int);
}

/// Moving a fraction is multiplying it by a power of two.
proof fn lemma_normalized(fraction: nat)
    requires
        0 < fraction < 0x400,
    ensures
        0x400 <= normalized(fraction) < 0x800,
        two_to(13 + missing_bits(fraction)) > 0,
        normalized(fraction) * 0x2000 == fraction * two_to(13 + missing_bits(fraction)),
{
    lemma_two_to();
    let unit = two_to(13 + missing_bits(fraction));
    if missing_bits(fraction) == 1 {
        assert(fraction * unit == fraction * 0x4000) by (nonlinear_arith)
            requires
                unit == 0x4000,
        ;
    }
    if missing_bits(fraction) == 2 {
        assert(fraction * unit == fraction * 0x8000) by (nonlinear_arith)
            requires
                unit == 0x8000,
        ;
    }
    if missing_bits(fraction) == 3 {
        assert(fraction * unit == fraction * 0x10000) by (nonlinear_arith)
            requires
                unit == 0x10000,
        ;
    }
    if missing_bits(fraction) == 4 {
        assert(fraction * unit == fraction * 0x20000) by (nonlinear_arith)
            requires
                unit == 0x20000,
        ;
    }
    if missing_bits(fraction) == 5 {
        assert(fraction * unit == fraction * 0x40000) by (nonlinear_arith)
            requires
                unit == 0x40000,
        ;
    }
    if missing_bits(fraction) == 6 {
        assert(fraction * unit == fraction * 0x80000) by (nonlinear_arith)
            requires
                unit == 0x80000,
        ;
    }
    if missing_bits(fraction) == 7 {
        assert(fraction * unit == fraction * 0x100000) by (nonlinear_arith)
            requires
                unit == 0x100000,
        ;
    }
    if missing_bits(fraction) == 8 {
        assert(fraction * unit == fraction * 0x200000) by (nonlinear_arith)
            requires
                unit == 0x200000,
        ;
    }
    if missing_bits(fraction) == 9 {
        assert(fraction * unit == fraction * 0x400000) by (nonlinear_arith)
            requires
                unit == 0x400000,
        ;
    }
    if missing_bits(fraction) == 10 {
        assert(fraction * unit == fraction * 0x800000) by (nonlinear_arith)
            requires
                unit == 0x800000,
        ;
    }
}

/// How far two numbers are apart.
pub open spec fn distance(a: int, b: int) -> int {
    if a >= b {
        a - b
    } else {
        b - a
    }
}

/// What rounds to a number of units is at most half a unit from it; where it is just half a unit
/// from it, the number is even.
pub proof fn law_rounding_is_to_nearest(x: nat, unit: nat)
    requires
        unit > 0,
    ensures
        2 * distance(nearest_even(x, unit) * unit as int, x as int) <= unit,
        2 * distance(nearest_even(x, unit) * unit as int, x as int) == unit ==> nearest_even(
            x,
            unit,
        ) % 2 == 0,
{
    let below = (x / unit) as int;
    let rest = (x % unit) as int;
    let size = unit as int;
    vstd::arithmetic::div_mod::lemma_fundamental_div_mod(x as int, size);
    vstd::arithmetic::mul::lemma_mul_is_commutative(below, size);
    assert((below + 1) * size == below * size + size) by (nonlinear_arith);
    assert(below * size + rest == x);
    assert(0 <= rest < size);
}

/// A multiple of a unit that is at most half a unit from a number is not farther from it than any
/// other multiple.
proof fn lemma_no_multiple_is_closer(n: int, m: int, unit: int, x: int)
    requires
        unit > 0,
        2 * distance(n * unit, x) <= unit,
    ensures
        distance(n * unit, x) <= distance(m * unit, x),
        n != m && distance(n * unit, x) == distance(m * unit, x) ==> 2 * distance(n * unit, x)
            == unit,
{
    if m < n {
        assert(m * unit <= n * unit - unit) by (nonlinear_arith)
            requires
                m + 1 <= n,
                unit > 0,
        ;
    }
    if m > n {
        assert(m * unit >= n * unit + unit) by (nonlinear_arith)
            requires
                m >= n + 1,
                unit > 0,
        ;
    }
}

/// The size of a finite half, in units of the smallest one: two to the power of minus twenty-four.
pub open spec fn half_size(half: u16) -> nat {
    let exponent = (half as nat / 0x400) % 0x20;
    let fraction = half as nat % 0x400;
    if exponent == 0 {
        fraction
    } else {
        (0x400 + fraction) * two_to((exponent - 1) as nat)
    }
}

/// The size of a finite single, in units of the smallest one: two to the power of minus one hundred
/// and forty-nine.
pub open spec fn single_size(single: u32) -> nat {
    let exponent = exponent_of(single);
    if exponent == 0 {
        fraction_of(single)
    } else {
        (0x80_0000 + fraction_of(single)) * two_to((exponent - 1) as nat)
    }
}

/// The size of a finite half, in units of the smallest single.
pub open spec fn half_in_singles(half: u16) -> nat {
    half_size(half) * two_to(125)
}

/// Powers of two multiply by adding their exponents.
proof fn lemma_two_to_adds(a: nat, b: nat)
    ensures
        two_to(a + b) == two_to(a) * two_to(b),
        two_to(a) > 0,
    decreases a,
{
    if a > 0 {
        lemma_two_to_adds((a - 1) as nat, b);
        let c = two_to((a - 1) as nat) as int;
        let d = two_to(b) as int;
        assert((2 * c) * d == 2 * (c * d)) by (nonlinear_arith);
        assert((a + b - 1) as nat == (a - 1) as nat + b);
        assert(two_to(a + b) == 2 * two_to((a + b - 1) as nat));
    } else {
        assert(a + b == b);
        let d = two_to(b) as int;
        assert(1 * d == d) by (nonlinear_arith);
    }
}

/// A half of a binade or a later one is a multiple of the binade's step.
proof fn lemma_half_steps(half: u16, e: nat) -> (steps: nat)
    requires
        half < 0x7c00,
        1 <= e <= 30,
        half >= e * 0x400,
    ensures
        half_size(half) == steps * two_to((e - 1) as nat),
        half <= e * 0x400 + 0x400 ==> steps == half - e * 0x400 + 0x400,
{
    let exponent = half as nat / 0x400;
    let fraction = half as nat % 0x400;
    assert(exponent >= e);
    assert(exponent % 0x20 == exponent);
    let more = (exponent - e) as nat;
    lemma_two_to_adds(more, (e - 1) as nat);
    assert((exponent - 1) as nat == more + (e - 1) as nat);
    let whole = (0x400 + fraction) as int;
    let steps = ((0x400 + fraction) * two_to(more)) as nat;
    let a = two_to(more) as int;
    let b = two_to((e - 1) as nat) as int;
    assert(whole * (a * b) == (whole * a) * b) by (nonlinear_arith);
    if half <= e * 0x400 + 0x400 {
        reveal_with_fuel(two_to, 2);
        if exponent == e {
            assert(two_to(more) == 1);
            assert(whole * a == whole) by (nonlinear_arith)
                requires
                    a == 1,
            ;
        } else {
            assert(exponent == e + 1 && fraction == 0);
            assert(more == 1);
            assert(two_to(more) == 2);
            assert(whole * a == 2 * whole) by (nonlinear_arith)
                requires
                    a == 2,
            ;
        }
        assert(steps == whole * a);
    }
    steps
}

/// Halves grow with their bits.
proof fn lemma_half_below(half: u16, e: nat)
    requires
        1 <= e <= 30,
        half < e * 0x400,
    ensures
        half_size(half) < 0x400 * two_to((e - 1) as nat),
{
    let exponent = half as nat / 0x400;
    let fraction = half as nat % 0x400;
    assert(exponent < e);
    assert(exponent % 0x20 == exponent);
    lemma_two_to_grows(0, (e - 1) as nat);
    let b = two_to((e - 1) as nat) as int;
    if exponent == 0 {
        assert(0x400 * b >= 0x400) by (nonlinear_arith)
            requires
                b >= 1,
        ;
    } else {
        lemma_two_to_grows(exponent, (e - 1) as nat);
        assert(two_to(exponent) == 2 * two_to((exponent - 1) as nat));
        let a = two_to((exponent - 1) as nat) as int;
        let whole = (0x400 + fraction) as int;
        lemma_two_to_grows(0, (exponent - 1) as nat);
        assert(whole * a < 0x400 * b) by (nonlinear_arith)
            requires
                whole < 0x800,
                a >= 1,
                2 * a <= b,
        ;
    }
}

/// No half is closer to a single than the one it becomes, where the single is not beyond the
/// largest half by half a step or more; of two that are equally close it becomes the even one.
pub proof fn law_no_half_is_closer(single: u32, other: u16)
    requires
        single % 0x8000_0000 < 0x477f_f000,
        other < 0x7c00,
    ensures
        half_magnitude(single) < 0x7c00,
        ({
            let half = half_magnitude(single) as u16;
            let near = distance(half_in_singles(half) as int, single_size(single) as int);
            let far = distance(half_in_singles(other) as int, single_size(single) as int);
            &&& near <= far
            &&& near == far && half != other ==> half % 2 == 0
        }),
{
    lemma_two_to();
    let exponent = exponent_of(single);
    let fraction = fraction_of(single);
    let size = single_size(single) as int;
    let half = half_magnitude(single) as u16;
    assert(exponent <= 142);
    lemma_two_to_grows(0, 125);
    if exponent < 102 {
        let top = two_to(124) as int;
        lemma_two_to_adds(24, 100);
        assert(two_to(125) == 2 * top);
        if exponent > 0 {
            let power = two_to((exponent - 1) as nat) as int;
            lemma_two_to_grows((exponent - 1) as nat, 100);
            let x = (0x80_0000 + fraction) as int;
            let most = two_to(100) as int;
            assert(x * power < 0x100_0000 * most) by (nonlinear_arith)
                requires
                    0 <= x < 0x100_0000,
                    1 <= power <= most,
            ;
        } else {
            lemma_two_to_grows(0, 100);
            let most = two_to(100) as int;
            assert(0x100_0000 * most >= 0x100_0000) by (nonlinear_arith)
                requires
                    most >= 1,
            ;
        }
        assert(size < top);
        assert(half_size(0) == 0);
        assert(2 * distance(0 * two_to(125) as int, size) <= two_to(125));
        lemma_no_multiple_is_closer(0, half_size(other) as int, two_to(125) as int, size);
    } else if exponent < 113 {
        let unit = two_to((126 - exponent) as nat);
        let power = two_to((exponent - 1) as nat) as int;
        let x = 0x80_0000 + fraction;
        lemma_two_to_grows(14, (126 - exponent) as nat);
        lemma_two_to_grows(0, (exponent - 1) as nat);
        lemma_two_to_adds((126 - exponent) as nat, (exponent - 1) as nat);
        assert(two_to(125) == unit * power);
        law_rounding_is_to_nearest(x, unit);
        let n = nearest_even(x, unit) as int;
        let wide = unit as int;
        assert(n <= 0x400) by (nonlinear_arith)
            requires
                2 * distance(n * wide, x as int) <= wide,
                x < 0x100_0000,
                wide >= 0x4000,
        ;
        lemma_scaled(n, wide, x as int, power);
        assert(half == n);
        assert(half_size(half) == n) by {
            if n == 0x400 {
                assert(half as nat / 0x400 == 1 && half as nat % 0x400 == 0);
                assert(two_to(0) == 1);
                assert((0x400 + half as nat % 0x400) * two_to(0) == 0x400) by (nonlinear_arith)
                    requires
                        two_to(0) == 1,
                        half as nat % 0x400 == 0,
                ;
            } else {
                assert(half as nat / 0x400 == 0);
            }
        }
        lemma_no_multiple_is_closer(n, half_size(other) as int, two_to(125) as int, size);
        if half_size(other) == n && half != other {
            assert(other >= 0x400);
            if half < 0x400 {
                lemma_half_at_least(other);
            } else {
                lemma_halves_differ(half, other, 1);
            }
            assert(false);
        }
        assert(half_size(half) * two_to(125) == n * two_to(125));
    } else {
        let e = (exponent - 112) as nat;
        let x = e * 0x80_0000 + fraction;
        let power = two_to((exponent - 1) as nat) as int;
        law_rounding_is_to_nearest(x, 0x2000);
        lemma_two_to_grows(0, (exponent - 1) as nat);
        let n = nearest_even(x, 0x2000) as int;
        assert(e * 0x400 <= n <= e * 0x400 + 0x400);
        assert(n < 0x7c00);
        let step = two_to((e - 1) as nat) as int;
        let wide = step * two_to(125);
        lemma_two_to_adds((e - 1) as nat, 125);
        lemma_two_to_adds(13, (exponent - 1) as nat);
        assert((e - 1) as nat + 125 == 13 + (exponent - 1) as nat);
        assert(wide == 0x2000 * power);
        let m = lemma_half_steps(half, e) as int;
        assert(m == n - e * 0x400 + 0x400);
        assert(2 * distance(m * 0x2000, (0x80_0000 + fraction) as int) <= 0x2000);
        lemma_scaled(m, 0x2000, (0x80_0000 + fraction) as int, power);
        let big = two_to(125) as int;
        assert((m * step) * big == m * (step * big)) by (nonlinear_arith);
        if other >= e * 0x400 {
            let k = lemma_half_steps(other, e) as int;
            assert((k * step) * big == k * (step * big)) by (nonlinear_arith);
            lemma_no_multiple_is_closer(m, k, wide, size);
            if half != other {
                if k == m {
                    lemma_halves_differ(half, other, e);
                }
            }
        } else {
            lemma_half_below(other, e);
            lemma_no_multiple_is_closer(m, 0x400, wide, size);
            let below = half_size(other) as int;
            assert(below * big < 0x400 * (step * big)) by (nonlinear_arith)
                requires
                    below < 0x400 * step,
                    big >= 1,
            ;
            let y = (0x80_0000 + fraction) as int;
            assert(0x400 * (0x2000 * power) <= y * power) by (nonlinear_arith)
                requires
                    y >= 0x80_0000,
                    power >= 1,
            ;
        }
    }
}

/// A half with an exponent is no smaller than the first of them.
proof fn lemma_half_at_least(half: u16)
    requires
        0x400 <= half < 0x7c00,
    ensures
        half_size(half) >= 0x400,
{
    let exponent = half as nat / 0x400;
    assert(exponent % 0x20 == exponent);
    lemma_two_to_grows(0, (exponent - 1) as nat);
    let power = two_to((exponent - 1) as nat) as int;
    let whole = (0x400 + half as nat % 0x400) as int;
    assert(whole * power >= 0x400) by (nonlinear_arith)
        requires
            whole >= 0x400,
            power >= 1,
    ;
}

/// Distances grow with what both ends are multiplied by.
proof fn lemma_scaled(n: int, unit: int, x: int, power: int)
    requires
        power >= 1,
        2 * distance(n * unit, x) <= unit,
    ensures
        2 * distance(n * (unit * power), x * power) <= unit * power,
        2 * distance(n * (unit * power), x * power) == unit * power ==> 2 * distance(n * unit, x)
            == unit,
{
    let gap = distance(n * unit, x);
    assert(n * (unit * power) == (n * unit) * power) by (nonlinear_arith);
    assert((n * unit) * power - x * power == (n * unit - x) * power) by (nonlinear_arith);
    assert(x * power - (n * unit) * power == (x - n * unit) * power) by (nonlinear_arith);
    assert(gap * power >= 0) by (nonlinear_arith)
        requires
            gap >= 0,
            power >= 1,
    ;
    assert(distance(n * (unit * power), x * power) == gap * power) by (nonlinear_arith)
        requires
            n * (unit * power) == (n * unit) * power,
            gap == distance(n * unit, x),
            power >= 1,
    ;
    assert(2 * (gap * power) <= unit * power) by (nonlinear_arith)
        requires
            2 * gap <= unit,
            power >= 1,
    ;
    assert(2 * (gap * power) == unit * power ==> 2 * gap == unit) by (nonlinear_arith)
        requires
            2 * gap <= unit,
            power >= 1,
    ;
}

/// Halves of different bits have different sizes, of which the greater bits have the greater.
proof fn lemma_halves_differ(a: u16, b: u16, e: nat)
    requires
        1 <= e <= 30,
        e * 0x400 <= a <= e * 0x400 + 0x400,
        e * 0x400 <= b < 0x7c00,
        a < 0x7c00,
        a != b,
    ensures
        half_size(a) != half_size(b),
{
    let step = two_to((e - 1) as nat) as int;
    lemma_two_to_grows(0, (e - 1) as nat);
    let m = lemma_half_steps(a, e) as int;
    let k = lemma_half_steps(b, e) as int;
    if b <= e * 0x400 + 0x400 {
        assert(m * step != k * step) by (nonlinear_arith)
            requires
                m != k,
                step >= 1,
        ;
    } else {
        assert(e + 1 <= 30);
        let later = lemma_half_steps(b, e + 1) as int;
        let wide = two_to(e) as int;
        assert(wide == 2 * step);
        if b <= (e + 1) * 0x400 + 0x400 {
            assert(later > 0x400);
        } else {
            let exponent = b as nat / 0x400;
            assert(exponent % 0x20 == exponent);
            lemma_two_to_grows(e + 1, (exponent - 1) as nat);
            assert(two_to(e + 1) == 2 * wide);
            let power = two_to((exponent - 1) as nat) as int;
            let whole = (0x400 + b as nat % 0x400) as int;
            assert(whole * power > 0x400 * wide) by (nonlinear_arith)
                requires
                    whole >= 0x400,
                    power >= 2 * wide,
                    wide >= 1,
            ;
        }
        assert(half_size(b) > 0x400 * wide) by {
            if b <= (e + 1) * 0x400 + 0x400 {
                assert(later * wide > 0x400 * wide) by (nonlinear_arith)
                    requires
                        later > 0x400,
                        wide >= 1,
                ;
            }
        }
        assert(m * step <= 0x800 * step) by (nonlinear_arith)
            requires
                m <= 0x800,
                step >= 1,
        ;
    }
}

/// A single beyond the largest half by half a step or more becomes infinite; one that is no number
/// becomes a half that is none, and no other does; the sign is kept.
pub proof fn law_large_singles_become_infinite(single: u32)
    ensures
        0x477f_f000 <= single % 0x8000_0000 <= 0x7f80_0000 ==> half_of(single) % 0x8000 == 0x7c00,
        half_of(single) <= u16::MAX,
        half_is_nan(half_of(single) as u16) <==> single % 0x8000_0000 > 0x7f80_0000,
        half_of(single) >= 0x8000 <==> single >= 0x8000_0000,
        half_of(single) % 0x8000 == half_magnitude(single),
{
    lemma_two_to();
    let exponent = exponent_of(single);
    if 102 <= exponent < 113 {
        let unit = two_to((126 - exponent) as nat) as int;
        lemma_two_to_grows(14, (126 - exponent) as nat);
        let x = (0x80_0000 + fraction_of(single)) as int;
        assert(x / unit <= 0x400) by (nonlinear_arith)
            requires
                x < 0x100_0000,
                unit >= 0x4000,
        ;
    }
    assert(half_magnitude(single) <= 0x7c01);
    if single % 0x8000_0000 < 0x477f_f000 {
        law_no_half_is_closer(single, 0);
    }
}

/// A finite half becomes the single of its very size and sign; one that is infinite stays so, and
/// one that is no number becomes a single that is none.
pub proof fn law_halves_become_singles_of_their_size(half: u16)
    ensures
        single_of(half) <= u32::MAX,
        half % 0x8000 < 0x7c00 ==> is_finite(single_of(half) as u32) && single_size(
            single_of(half) as u32,
        ) == half_in_singles(half),
        half % 0x8000 == 0x7c00 ==> single_of(half) % 0x8000_0000 == 0x7f80_0000,
        half % 0x8000 > 0x7c00 ==> single_of(half) % 0x8000_0000 > 0x7f80_0000,
        single_of(half) >= 0x8000_0000 <==> half >= 0x8000,
{
    lemma_two_to();
    let exponent = (half as nat / 0x400) % 0x20;
    let fraction = half as nat % 0x400;
    let single = single_of(half) as u32;
    if exponent == 0 {
        if fraction != 0 {
            let shift = missing_bits(fraction);
            lemma_normalized(fraction);
            assert(exponent_of(single) == 113 - shift);
            assert(fraction_of(single) == (normalized(fraction) - 0x400) * 0x2000);
            let unit = two_to(13 + shift) as int;
            let power = two_to((112 - shift) as nat) as int;
            lemma_two_to_adds(13 + shift, (112 - shift) as nat);
            assert(13 + shift + (112 - shift) as nat == 125);
            let f = fraction as int;
            assert((f * unit) * power == f * (unit * power)) by (nonlinear_arith);
            assert(0x80_0000 + fraction_of(single) == normalized(fraction) * 0x2000);
        } else {
            assert(half_in_singles(half) == 0) by (nonlinear_arith)
                requires
                    half_size(half) == 0,
                    half_in_singles(half) == half_size(half) * two_to(125),
            ;
        }
    } else if exponent < 0x1f {
        assert(exponent_of(single) == exponent + 112);
        assert(fraction_of(single) == fraction * 0x2000);
        let whole = (0x400 + fraction) as int;
        let a = two_to((exponent - 1) as nat) as int;
        let big = two_to(125) as int;
        let power = two_to((exponent + 111) as nat) as int;
        lemma_two_to_adds((exponent - 1) as nat, 125);
        lemma_two_to_adds(13, (exponent + 111) as nat);
        assert((exponent - 1) as nat + 125 == 13 + (exponent + 111) as nat);
        assert((whole * a) * big == whole * (a * big)) by (nonlinear_arith);
        assert((whole * 0x2000) * power == whole * (0x2000 * power)) by (nonlinear_arith);
        assert(0x80_0000 + fraction_of(single) == whole * 0x2000);
    }
}

fn two_to_word(n: u32) -> (power: u32)
    requires
        n < 32,
    ensures
        power == two_to(n as nat),
{
    let mut power: u32 = 1;
    let mut i: u32 = 0;
    proof {
        reveal_with_fuel(two_to, 33);
    }
    while i < n
        invariant
            i <= n < 32,
            power == two_to(i as nat),
            two_to(31) == 0x8000_0000,
        decreases n - i,
    {
        proof {
            lemma_two_to_grows((i + 1) as nat, 31);
        }
        power = power * 2;
        i += 1;
    }
    power
}

proof fn lemma_two_to_grows(a: nat, b: nat)
    requires
        a <= b,
    ensures
        1 <= two_to(a) <= two_to(b),
    decreases b,
{
    if a < b {
        lemma_two_to_grows(a, (b - 1) as nat);
    } else if b > 0 {
        lemma_two_to_grows((a - 1) as nat, (b - 1) as nat);
    }
}

fn nearest(x: u32, unit: u32) -> (number: u32)
    requires
        unit >= 2,
        unit <= 0x8000_0000,
    ensures
        number == nearest_even(x as nat, unit as nat),
{
    let below: u32 = x / unit;
    let rest: u32 = x % unit;
    assert(below <= 0x7fff_ffff) by (nonlinear_arith)
        requires
            below == x / unit,
            unit >= 2,
            x <= u32::MAX,
    ;
    let twice: u64 = 2 * rest as u64;
    if twice > unit as u64 || (twice == unit as u64 && below % 2 == 1) {
        below + 1
    } else {
        below
    }
}

/// The half that is closest to a single, in bits.
pub fn f32_to_f16_bits(single: u32) -> (half: u16)
    ensures
        half == half_of(single),
{
    let sign: u32 = if single >= 0x8000_0000 {
        0x8000
    } else {
        0
    };
    let exponent: u32 = (single / 0x80_0000) % 0x100;
    let fraction: u32 = single % 0x80_0000;
    let magnitude: u32 = if exponent == 0xff {
        if fraction != 0 {
            0x7c01
        } else {
            0x7c00
        }
    } else if exponent > 142 {
        0x7c00
    } else if exponent >= 113 {
        nearest((exponent - 112) * 0x80_0000 + fraction, 0x2000)
    } else if exponent < 102 {
        0
    } else {
        let unit: u32 = two_to_word(126 - exponent);
        proof {
            lemma_two_to();
            lemma_two_to_grows(14, (126 - exponent) as nat);
            lemma_two_to_grows((126 - exponent) as nat, 24);
            let x = (0x80_0000 + fraction) as int;
            assert(x / unit as int <= 0x400) by (nonlinear_arith)
                requires
                    x < 0x100_0000,
                    unit >= 0x4000,
            ;
        }
        nearest(0x80_0000 + fraction, unit)
    };
    assert(magnitude <= 0x7c01);
    (sign + magnitude) as u16
}

/// The single that a half is, in bits.
pub fn f16_bits_to_f32(half: u16) -> (single: u32)
    ensures
        single == single_of(half),
{
    proof {
        lemma_two_to();
    }
    let sign: u32 = if half >= 0x8000 {
        0x8000_0000
    } else {
        0
    };
    let exponent: u32 = (half as u32 / 0x400) % 0x20;
    let fraction: u32 = half as u32 % 0x400;
    let magnitude: u32 = if exponent == 0 {
        if fraction == 0 {
            0
        } else {
            let (shift, significand): (u32, u32) = if fraction >= 0x200 {
                (1, fraction * 2)
            } else if fraction >= 0x100 {
                (2, fraction * 4)
            } else if fraction >= 0x80 {
                (3, fraction * 8)
            } else if fraction >= 0x40 {
                (4, fraction * 16)
            } else if fraction >= 0x20 {
                (5, fraction * 32)
            } else if fraction >= 0x10 {
                (6, fraction * 64)
            } else if fraction >= 0x8 {
                (7, fraction * 128)
            } else if fraction >= 0x4 {
                (8, fraction * 256)
            } else if fraction >= 0x2 {
                (9, fraction * 512)
            } else {
                (10, fraction * 1024)
            };
            (113 - shift) * 0x80_0000 + (significand - 0x400) * 0x2000
        }
    } else if exponent == 0x1f {
        0x7f80_0000 + fraction * 0x2000
    } else {
        (exponent + 112) * 0x80_0000 + fraction * 0x2000
    };
    sign + magnitude
}

/// The halves that bytes spell.
pub open spec fn halves_at(data: Seq<u8>) -> Seq<u16> {
    Seq::new(data.len() / 2, |i: int| bytes::le_at(data, 2 * i, 2) as u16)
}

/// The bytes of the halves closest to singles.
pub open spec fn half_bytes(singles: Seq<u32>) -> Seq<u8>
    decreases singles.len(),
{
    if singles.len() == 0 {
        Seq::empty()
    } else {
        half_bytes(singles.drop_last()) + bytes::le_bytes(half_of(singles.last()), 2)
    }
}

/// Encodes singles as the halves closest to them.
pub fn encode_f16(values: &[u32]) -> (encoded: Vec<u8>)
    ensures
        encoded@ == half_bytes(values@),
{
    let ghost all = values@;
    let mut encoded: Vec<u8> = Vec::new();
    let mut i: usize = 0;
    assert(all.subrange(0, 0) =~= Seq::empty());
    while i < values.len()
        invariant
            i <= values@.len(),
            all == values@,
            encoded@ == half_bytes(all.subrange(0, i as int)),
        decreases values@.len() - i,
    {
        proof {
            let next = all.subrange(0, i + 1);
            assert(next.drop_last() =~= all.subrange(0, i as int));
        }
        put_le(&mut encoded, f32_to_f16_bits(values[i]) as u64, 2);
        i += 1;
    }
    assert(all.subrange(0, all.len() as int) =~= all);
    encoded
}

/// Decodes halves to singles.
pub fn decode_f16(data: &[u8]) -> (result: Result<Vec<u32>, VectorEncodingError>)
    requires
        data@.len() < usize::MAX,
    ensures
        match result {
            Ok(values) => data@.len() % 2 == 0 && values@.len() == data@.len() / 2 && forall|i: int|
                0 <= i < values@.len() ==> #[trigger] values@[i] == single_of(halves_at(data@)[i]),
            Err(error) => data@.len() % 2 != 0 && is_wrong_length(
                error,
                "f16"@,
                data@.len(),
                data@.len() + 1,
            ),
        },
{
    let len: usize = data.len();
    if len % 2 != 0 {
        return Err(
            VectorEncodingError::InvalidLength {
                encoding: "f16",
                actual: len,
                expected: len + 1,
            },
        );
    }
    let mut values: Vec<u32> = Vec::new();
    let mut i: usize = 0;
    proof {
        bytes::lemma_radix_values();
    }
    while i < len / 2
        invariant
            len == data@.len(),
            i <= len / 2,
            values@.len() == i,
            bytes::radix_pow(2) == 0x1_0000,
            forall|k: int|
                0 <= k < i ==> #[trigger] values@[k] == single_of(halves_at(data@)[k]),
        decreases len / 2 - i,
    {
        let half: u64 = get_le(data, 2 * i, 2);
        assert(halves_at(data@)[i as int] == half as u16);
        values.push(f16_bits_to_f32(half as u16));
        i += 1;
    }
    Ok(values)
}

/// The scale and offset of an i8 vector.
#[derive(Debug, Clone, Copy, PartialEq, Eq, Structural)]
pub struct I8Metadata {
    /// The step between codes; zero where all values are the same.
    pub scale: u32,
    /// The value of code zero.
    pub offset: u32,
}

impl I8Metadata {
    /// The bytes of the scale and the offset.
    pub open spec fn bytes_of(self) -> Seq<u8> {
        bytes::le_bytes(self.scale as nat, 4) + bytes::le_bytes(self.offset as nat, 4)
    }

    /// The scale and offset that bytes begin with.
    pub open spec fn at(data: Seq<u8>) -> I8Metadata {
        I8Metadata {
            scale: bytes::le_at(data, 0, 4) as u32,
            offset: bytes::le_at(data, 4, 4) as u32,
        }
    }

    /// The bytes of the scale and the offset.
    pub fn to_le_bytes(self) -> (data: Vec<u8>)
        ensures
            data@ == self.bytes_of(),
    {
        let mut data: Vec<u8> = Vec::new();
        put_le(&mut data, self.scale as u64, 4);
        put_le(&mut data, self.offset as u64, 4);
        assert(data@ =~= self.bytes_of());
        data
    }

    /// The scale and offset that eight bytes spell.
    pub fn from_le_bytes(data: &[u8]) -> (metadata: I8Metadata)
        requires
            data@.len() >= I8_METADATA_LEN,
        ensures
            metadata == I8Metadata::at(data@),
    {
        proof {
            bytes::lemma_radix_values();
        }
        I8Metadata {
            scale: get_le(data, 0, 4) as u32,
            offset: get_le(data, 4, 4) as u32,
        }
    }
}

/// Reads the scale and offset that an encoded vector begins with.
pub fn decode_i8_metadata(data: &[u8]) -> (result: Result<I8Metadata, VectorEncodingError>)
    ensures
        match result {
            Ok(metadata) => data@.len() >= I8_METADATA_LEN && metadata == I8Metadata::at(data@),
            Err(error) => data@.len() < I8_METADATA_LEN && is_wrong_length(
                error,
                "i8 metadata"@,
                data@.len(),
                I8_METADATA_LEN as nat,
            ),
        },
{
    if data.len() < I8_METADATA_LEN {
        return Err(
            VectorEncodingError::InvalidLength {
                encoding: "i8 metadata",
                actual: data.len(),
                expected: I8_METADATA_LEN,
            },
        );
    }
    Ok(I8Metadata::from_le_bytes(data))
}

/// Whether the bits of a single are finite.
pub open spec fn is_finite(single: u32) -> bool {
    exponent_of(single) != 0xff
}

/// Whether the bits of a single are zero.
pub open spec fn is_zero(single: u32) -> bool {
    single == 0 || single == 0x8000_0000
}

/// Whether a scale, an offset and codes are an i8 vector's: both numbers
/// finite, the scale not below zero, no code the one that is never written,
/// and without a scale no code but zero.
pub open spec fn i8_holds(metadata: I8Metadata, codes: Seq<u8>) -> bool {
    &&& is_finite(metadata.scale)
    &&& metadata.scale < 0x8000_0000 || is_zero(metadata.scale)
    &&& is_finite(metadata.offset)
    &&& forall|i: int|
        0 <= i < codes.len() ==> #[trigger] codes[i] != 0x80 && (is_zero(metadata.scale)
            ==> codes[i] == 0)
}

/// A single is finite exactly where not all of its eight exponent bits are set, and zero where all
/// bits but the sign are clear.
pub proof fn law_finite_bits(single: u32)
    ensures
        is_finite(single) <==> single & 0x7f80_0000 != 0x7f80_0000,
        is_zero(single) <==> single & 0x7fff_ffff == 0,
{
    assert(((single / 0x80_0000) % 0x100 != 0xff) <==> single & 0x7f80_0000 != 0x7f80_0000)
        by (bit_vector);
    assert((single == 0 || single == 0x8000_0000) <==> single & 0x7fff_ffff == 0) by (bit_vector);
}

/// An i8 vector is accepted exactly where its scale and offset are finite, its scale is not
/// negative, no code is the lowest there is, and every code is zero where the scale is.
pub proof fn law_i8_vectors_accepted(metadata: I8Metadata, codes: Seq<u8>)
    ensures
        i8_holds(metadata, codes) <==> {
            &&& metadata.scale & 0x7f80_0000 != 0x7f80_0000
            &&& metadata.offset & 0x7f80_0000 != 0x7f80_0000
            &&& metadata.scale & 0x8000_0000 == 0 || metadata.scale & 0x7fff_ffff == 0
            &&& !codes.contains(0x80)
            &&& metadata.scale & 0x7fff_ffff == 0 ==> forall|i: int|
                0 <= i < codes.len() ==> #[trigger] codes[i] == 0
        },
{
    let scale = metadata.scale;
    law_finite_bits(scale);
    law_finite_bits(metadata.offset);
    assert((scale < 0x8000_0000) <==> scale & 0x8000_0000 == 0) by (bit_vector);
    if !codes.contains(0x80) {
        assert forall|i: int| 0 <= i < codes.len() implies #[trigger] codes[i] != 0x80 by {}
    }
    if i8_holds(metadata, codes) && codes.contains(0x80) {
        let i = codes.index_of(0x80);
        assert(codes[i] != 0x80);
    }
}

/// Checks an i8 vector's parts.
pub fn validate_i8(metadata: I8Metadata, codes: &[u8]) -> (result: Result<(), VectorEncodingError>)
    ensures
        match result {
            Ok(()) => i8_holds(metadata, codes@),
            Err(error) => !i8_holds(metadata, codes@) && error is InvalidI8,
        },
{
    let scaleless: bool = metadata.scale == 0 || metadata.scale == 0x8000_0000;
    if (metadata.scale / 0x80_0000) % 0x100 == 0xff || (metadata.scale >= 0x8000_0000
        && !scaleless) || (metadata.offset / 0x80_0000) % 0x100 == 0xff {
        return Err(VectorEncodingError::InvalidI8);
    }
    let mut i: usize = 0;
    while i < codes.len()
        invariant
            i <= codes@.len(),
            scaleless == is_zero(metadata.scale),
            forall|k: int|
                0 <= k < i ==> #[trigger] codes@[k] != 0x80 && (is_zero(metadata.scale)
                    ==> codes@[k] == 0),
        decreases codes@.len() - i,
    {
        if codes[i] == 0x80 || (scaleless && codes[i] != 0) {
            assert(!i8_holds(metadata, codes@));
            return Err(VectorEncodingError::InvalidI8);
        }
        i += 1;
    }
    Ok(())
}

/// The parts of an encoded i8 vector: its scale and offset, and its codes.
pub fn decode_i8_parts(data: &[u8]) -> (result: Result<
    (I8Metadata, Vec<u8>),
    VectorEncodingError,
>)
    ensures
        match result {
            Ok((metadata, codes)) => {
                &&& data@.len() >= I8_METADATA_LEN
                &&& metadata == I8Metadata::at(data@)
                &&& codes@ == data@.skip(I8_METADATA_LEN as int)
                &&& i8_holds(metadata, codes@)
            },
            Err(error) => if data@.len() < I8_METADATA_LEN {
                is_wrong_length(error, "i8 metadata"@, data@.len(), I8_METADATA_LEN as nat)
            } else {
                &&& error is InvalidI8
                &&& !i8_holds(I8Metadata::at(data@), data@.skip(I8_METADATA_LEN as int))
            },
        },
{
    let metadata: I8Metadata = match decode_i8_metadata(data) {
        Ok(metadata) => metadata,
        Err(error) => {
            return Err(error);
        },
    };
    let mut codes: Vec<u8> = Vec::new();
    let mut i: usize = I8_METADATA_LEN;
    while i < data.len()
        invariant
            I8_METADATA_LEN <= i <= data@.len(),
            codes@ == data@.subrange(I8_METADATA_LEN as int, i as int),
        decreases data@.len() - i,
    {
        codes.push(data[i]);
        assert(codes@ =~= data@.subrange(I8_METADATA_LEN as int, i + 1));
        i += 1;
    }
    assert(codes@ =~= data@.skip(I8_METADATA_LEN as int));
    match validate_i8(metadata, codes.as_slice()) {
        Ok(()) => Ok((metadata, codes)),
        Err(error) => Err(error),
    }
}

/// Puts a scale, an offset and codes one behind the other.
pub fn encode_i8_parts(metadata: I8Metadata, codes: &[u8]) -> (data: Vec<u8>)
    ensures
        data@ == metadata.bytes_of() + codes@,
{
    let mut data: Vec<u8> = metadata.to_le_bytes();
    bytes::put_bytes(&mut data, codes);
    data
}

/// The parts of an i8 vector are read back.
pub proof fn law_i8_parts_round_trip(metadata: I8Metadata, codes: Seq<u8>)
    ensures
        ({
            let data = metadata.bytes_of() + codes;
            &&& data.len() >= I8_METADATA_LEN
            &&& I8Metadata::at(data) == metadata
            &&& data.skip(I8_METADATA_LEN as int) == codes
        }),
{
    bytes::lemma_radix_values();
    bytes::lemma_le_round_trip(metadata.scale as nat, 4);
    bytes::lemma_le_round_trip(metadata.offset as nat, 4);
    let data = metadata.bytes_of() + codes;
    assert(data.subrange(0, 4) =~= bytes::le_bytes(metadata.scale as nat, 4));
    assert(data.subrange(4, 8) =~= bytes::le_bytes(metadata.offset as nat, 4));
    assert(data.skip(I8_METADATA_LEN as int) =~= codes);
}

/// How many bytes so many bits take.
pub open spec fn bit_bytes(dimension: nat) -> nat {
    (dimension + 7) / 8
}

/// A bit of bytes, the lowest bit of a byte first.
pub open spec fn bit_at(data: Seq<u8>, i: int) -> bool {
    (data[i / 8] as nat / two_to((i % 8) as nat)) % 2 == 1
}

/// Whether bytes are so many bits: no more bytes than they take, and nothing
/// behind the last.
pub open spec fn b1_holds(data: Seq<u8>, dimension: nat) -> bool {
    &&& data.len() == bit_bytes(dimension)
    &&& dimension % 8 != 0 ==> (data.last() as nat) < two_to(dimension % 8)
}

fn power_of_bit(bit: usize) -> (power: u8)
    requires
        bit < 8,
    ensures
        power == two_to(bit as nat),
{
    proof {
        lemma_two_to();
    }
    match bit {
        0 => 1,
        1 => 2,
        2 => 4,
        3 => 8,
        4 => 16,
        5 => 32,
        6 => 64,
        _ => 128,
    }
}

/// Checks that bytes are so many bits.
pub fn validate_b1(data: &[u8], dimension: usize) -> (result: Result<(), VectorEncodingError>)
    ensures
        match result {
            Ok(()) => b1_holds(data@, dimension as nat),
            Err(error) => !b1_holds(data@, dimension as nat) && match error {
                VectorEncodingError::InvalidLength { encoding, actual, expected } => encoding@
                    == "b1"@ && actual == data@.len() && expected == bit_bytes(dimension as nat)
                    && actual != expected,
                VectorEncodingError::NonZeroB1Padding { dimension: given } => given == dimension
                    && data@.len() == bit_bytes(dimension as nat),
                _ => false,
            },
        },
{
    let whole: usize = dimension / 8;
    let expected: usize = if dimension % 8 == 0 {
        whole
    } else {
        whole + 1
    };
    if data.len() != expected {
        return Err(
            VectorEncodingError::InvalidLength { encoding: "b1", actual: data.len(), expected },
        );
    }
    let used: usize = dimension % 8;
    if used != 0 && data[data.len() - 1] >= power_of_bit(used) {
        return Err(VectorEncodingError::NonZeroB1Padding { dimension });
    }
    Ok(())
}

/// The bits of an encoded vector: whether each value is not below zero.
pub fn decode_b1_signs(data: &[u8], dimension: usize) -> (result: Result<
    Vec<bool>,
    VectorEncodingError,
>)
    ensures
        match result {
            Ok(signs) => b1_holds(data@, dimension as nat) && signs@.len() == dimension && forall|
                i: int,
            |
                0 <= i < dimension ==> #[trigger] signs@[i] == bit_at(data@, i),
            Err(error) => !b1_holds(data@, dimension as nat) && if data@.len() != bit_bytes(
                dimension as nat,
            ) {
                is_wrong_length(error, "b1"@, data@.len(), bit_bytes(dimension as nat))
            } else {
                error == (VectorEncodingError::NonZeroB1Padding { dimension })
            },
        },
{
    match validate_b1(data, dimension) {
        Ok(()) => {},
        Err(error) => {
            return Err(error);
        },
    }
    let mut signs: Vec<bool> = Vec::new();
    let mut i: usize = 0;
    while i < dimension
        invariant
            i <= dimension,
            data@.len() == bit_bytes(dimension as nat),
            signs@.len() == i,
            forall|k: int| 0 <= k < i ==> #[trigger] signs@[k] == bit_at(data@, k),
        decreases dimension - i,
    {
        proof {
            lemma_two_to_grows(0, (i % 8) as nat);
        }
        let power: u8 = power_of_bit(i % 8);
        signs.push((data[i / 8] / power) % 2 == 1);
        i += 1;
    }
    Ok(signs)
}

/// The number that the bits from `from` to `to` are, the lowest first.
pub open spec fn bits_value(signs: Seq<bool>, from: int, to: int) -> nat
    decreases to - from,
{
    if from >= to {
        0
    } else {
        bits_value(signs, from, to - 1) + if signs[to - 1] {
            two_to((to - 1 - from) as nat)
        } else {
            0
        }
    }
}

/// Bits below a place are a number below that place's power, and a bit of
/// the number is the bit.
proof fn lemma_bits_value(signs: Seq<bool>, from: int, to: int, bit: int)
    requires
        from <= to <= from + 8,
    ensures
        bits_value(signs, from, to) < two_to((to - from) as nat),
        0 <= bit < to - from ==> ((bits_value(signs, from, to) / two_to(bit as nat)) % 2 == 1)
            == signs[from + bit],
    decreases to - from,
{
    lemma_two_to();
    if from < to {
        lemma_bits_value(signs, from, to - 1, bit);
        let below = bits_value(signs, from, to - 1);
        let high = two_to((to - 1 - from) as nat);
        if 0 <= bit < to - from {
            let unit = two_to(bit as nat);
            if bit == to - 1 - from {
                if signs[to - 1] {
                    assert((below + high) / unit == 1) by (nonlinear_arith)
                        requires
                            below < high,
                            unit == high,
                            high >= 1,
                    ;
                } else {
                    assert(below / unit == 0) by (nonlinear_arith)
                        requires
                            below < unit,
                    ;
                }
            } else {
                lemma_even_above(below, bit as nat, (to - 1 - from) as nat);
            }
        }
    }
}

/// Adding a higher power of two does not change a bit.
proof fn lemma_even_above(below: nat, bit: nat, place: nat)
    requires
        bit < place <= 7,
    ensures
        ((below + two_to(place)) / two_to(bit)) % 2 == (below / two_to(bit)) % 2,
{
    lemma_two_to();
    lemma_two_to_grows(0, bit);
    let unit = two_to(bit);
    let gap = two_to((place - bit) as nat);
    lemma_two_to_product(bit, (place - bit) as nat);
    assert((below + unit * gap) / unit == below / unit + gap) by {
        vstd::arithmetic::div_mod::lemma_fundamental_div_mod(below as int, unit as int);
        assert(below + unit * gap == unit * (below / unit + gap) + below % unit)
            by (nonlinear_arith)
            requires
                below == unit * (below / unit) + below % unit,
        ;
        vstd::arithmetic::div_mod::lemma_div_multiples_vanish_fancy(
            (below / unit + gap) as int,
            (below % unit) as int,
            unit as int,
        );
    }
    assert(gap % 2 == 0);
}

proof fn lemma_two_to_product(a: nat, b: nat)
    ensures
        two_to(a) * two_to(b) == two_to(a + b),
    decreases b,
{
    if b == 0 {
        assert(two_to(a) * 1 == two_to(a)) by (nonlinear_arith);
    } else {
        lemma_two_to_product(a, (b - 1) as nat);
        assert(two_to(a) * (2 * two_to((b - 1) as nat)) == 2 * (two_to(a) * two_to(
            (b - 1) as nat,
        ))) by (nonlinear_arith);
    }
}

/// Packs bits into bytes, the lowest bit of a byte first, with zeros behind
/// the last.
pub fn pack_signs(signs: &Vec<bool>) -> (data: Vec<u8>)
    ensures
        b1_holds(data@, signs@.len()),
        forall|i: int| 0 <= i < signs@.len() ==> #[trigger] bit_at(data@, i) == signs@[i],
{
    let ghost all = signs@;
    let total: usize = signs.len();
    let mut data: Vec<u8> = Vec::new();
    let mut i: usize = 0;
    proof {
        lemma_two_to();
    }
    while i < total
        invariant
            i <= total == signs@.len(),
            all == signs@,
            i % 8 == 0 || i == all.len(),
            data@.len() == bit_bytes(i as nat),
            i % 8 != 0 ==> (data@.last() as nat) < two_to((i % 8) as nat),
            forall|k: int| 0 <= k < i ==> #[trigger] bit_at(data@, k) == all[k],
        decreases total - i,
    {
        let from: usize = i;
        let ghost before = data@;
        let mut byte: u8 = 0;
        let mut used: usize = 0;
        while used < 8 && used < total - from
            invariant
                used <= 8,
                from <= total == signs@.len(),
                from + used <= total,
                all == signs@,
                byte == bits_value(all, from as int, from + used),
                byte < two_to(used as nat),
            decreases 8 - used,
        {
            proof {
                lemma_two_to();
                lemma_bits_value(all, from as int, from + used + 1, 0);
            }
            let power: u8 = power_of_bit(used);
            if signs[from + used] {
                byte = byte + power;
            }
            used += 1;
        }
        data.push(byte);
        i = from + used;
        proof {
            assert forall|k: int| 0 <= k < i implies #[trigger] bit_at(data@, k) == all[k] by {
                if k < from {
                    assert(bit_at(before, k) == all[k]);
                    assert(data@[k / 8] == before[k / 8]);
                } else {
                    assert(k / 8 == from / 8);
                    lemma_bits_value(all, from as int, from + used, k - from);
                    assert(from + (k - from) == k);
                }
            }
        }
    }
    data
}

/// Bits that were packed are read back.
pub proof fn law_signs_read_back(signs: Seq<bool>, data: Seq<u8>, decoded: Seq<bool>)
    requires
        b1_holds(data, signs.len()),
        forall|i: int| 0 <= i < signs.len() ==> #[trigger] bit_at(data, i) == signs[i],
        decoded.len() == signs.len(),
        forall|i: int| 0 <= i < signs.len() ==> #[trigger] decoded[i] == bit_at(data, i),
    ensures
        decoded == signs,
{
    assert(decoded =~= signs);
}

/// The state of the generator after so many draws.
pub open spec fn state_after(seed: u64, n: nat) -> u64
    decreases n,
{
    if n == 0 {
        seed
    } else {
        state_after(seed, (n - 1) as nat).wrapping_add(0x9e37_79b9_7f4a_7c15)
    }
}

/// What the generator makes of a state.
pub open spec fn mixed(state: u64) -> u64 {
    let first = (state ^ (state >> 30)).wrapping_mul(0xbf58_476d_1ce4_e5b9);
    let second = (first ^ (first >> 27)).wrapping_mul(0x94d0_49bb_1331_11eb);
    second ^ (second >> 31)
}

/// A draw of the generator, counted from zero.
pub open spec fn draw(seed: u64, n: nat) -> u64 {
    mixed(state_after(seed, n + 1))
}

/// A generator of numbers that depend on its seed alone.
struct SplitMix64 {
    state: u64,
}

impl SplitMix64 {
    fn next(&mut self, Ghost(seed): Ghost<u64>, Ghost(n): Ghost<nat>) -> (number: u64)
        requires
            old(self).state == state_after(seed, n),
        ensures
            final(self).state == state_after(seed, n + 1),
            number == draw(seed, n),
    {
        self.state = self.state.wrapping_add(0x9e37_79b9_7f4a_7c15);
        let state: u64 = self.state;
        let first: u64 = (state ^ (state >> 30)).wrapping_mul(0xbf58_476d_1ce4_e5b9);
        let second: u64 = (first ^ (first >> 27)).wrapping_mul(0x94d0_49bb_1331_11eb);
        second ^ (second >> 31)
    }
}

/// The order of indexes after so many swaps: each swap puts a drawn one of
/// the first into the last place that is not done yet.
pub open spec fn shuffled(dimension: nat, seed: u64, first: nat, swaps: nat) -> Seq<usize>
    decreases swaps,
{
    if swaps == 0 {
        Seq::new(dimension, |i: int| i as usize)
    } else {
        let before = shuffled(dimension, seed, first, (swaps - 1) as nat);
        let upper = dimension - swaps;
        let selected = (draw(seed, (first + swaps - 1) as nat) as int % (upper + 1)) as int;
        before.update(upper, before[selected]).update(selected, before[upper])
    }
}

/// How many swaps an order of so many indexes takes.
pub open spec fn swap_count(dimension: nat) -> nat {
    if dimension == 0 {
        0
    } else {
        (dimension - 1) as nat
    }
}

/// Whether every index stands at exactly one place.
pub open spec fn is_order(order: Seq<usize>, dimension: nat) -> bool {
    &&& order.len() == dimension
    &&& forall|i: int| 0 <= i < dimension ==> #[trigger] order[i] < dimension
    &&& forall|i: int, j: int| 0 <= i < j < dimension ==> #[trigger] order[i] != #[trigger] order[j]
    &&& forall|x: int| #![trigger has_place(order, x)] 0 <= x < dimension ==> has_place(order, x)
}

/// Whether an index stands somewhere.
pub open spec fn has_place(order: Seq<usize>, x: int) -> bool {
    exists|i: int| 0 <= i < order.len() && #[trigger] order[i] == x
}

/// Shuffling keeps every index at exactly one place.
pub proof fn law_shuffled_is_an_order(dimension: nat, seed: u64, first: nat, swaps: nat)
    requires
        swaps <= swap_count(dimension),
        dimension <= usize::MAX,
    ensures
        is_order(shuffled(dimension, seed, first, swaps), dimension),
    decreases swaps,
{
    let order = shuffled(dimension, seed, first, swaps);
    if swaps == 0 {
        assert forall|x: int| 0 <= x < dimension implies has_place(order, x) by {
            assert(order[x] == x);
        }
    } else {
        law_shuffled_is_an_order(dimension, seed, first, (swaps - 1) as nat);
        let before = shuffled(dimension, seed, first, (swaps - 1) as nat);
        let upper = dimension - swaps;
        let selected = (draw(seed, (first + swaps - 1) as nat) as int % (upper + 1)) as int;
        assert forall|x: int| 0 <= x < dimension implies has_place(order, x) by {
            assert(has_place(before, x));
            let i = choose|i: int| 0 <= i < before.len() && #[trigger] before[i] == x;
            let moved = if i == upper {
                selected
            } else if i == selected {
                upper
            } else {
                i
            };
            assert(order[moved] == x);
        }
    }
}

/// How a rotation permutes and flips the values of a vector.
#[derive(Debug)]
pub struct RotationSchedule {
    negative_signs: Vec<bool>,
    permutations: Vec<Vec<usize>>,
}

fn shuffled_indices(
    dimension: usize,
    generator: &mut SplitMix64,
    Ghost(seed): Ghost<u64>,
    Ghost(first): Ghost<nat>,
) -> (order: Vec<usize>)
    requires
        old(generator).state == state_after(seed, first),
    ensures
        order@ == shuffled(dimension as nat, seed, first, swap_count(dimension as nat)),
        final(generator).state == state_after(seed, first + swap_count(dimension as nat)),
{
    let mut order: Vec<usize> = Vec::new();
    let mut i: usize = 0;
    while i < dimension
        invariant
            i <= dimension,
            order@.len() == i,
            forall|k: int| 0 <= k < i ==> #[trigger] order@[k] == k,
        decreases dimension - i,
    {
        order.push(i);
        i += 1;
    }
    assert(order@ =~= shuffled(dimension as nat, seed, first, 0));
    if dimension == 0 {
        return order;
    }
    let mut upper: usize = dimension - 1;
    let ghost mut swaps: nat = 0;
    while upper > 0
        invariant
            upper + swaps == dimension - 1,
            order@ == shuffled(dimension as nat, seed, first, swaps),
            order@.len() == dimension,
            generator.state == state_after(seed, first + swaps),
        decreases upper,
    {
        proof {
            law_shuffled_is_an_order(dimension as nat, seed, first, swaps);
        }
        let number: u64 = generator.next(Ghost(seed), Ghost(first + swaps));
        let selected: usize = (number % (upper as u64 + 1)) as usize;
        let high: usize = order[upper];
        let low: usize = order[selected];
        order.set(upper, low);
        order.set(selected, high);
        proof {
            swaps = swaps + 1;
            assert(order@ =~= shuffled(dimension as nat, seed, first, swaps));
        }
        upper -= 1;
    }
    order
}

impl RotationSchedule {
    /// Whether the value at each place is flipped.
    pub closed spec fn signs(self) -> Seq<bool> {
        self.negative_signs@
    }

    /// The orders of the rounds.
    pub closed spec fn orders(self) -> Seq<Seq<usize>> {
        self.permutations@.map_values(|order: Vec<usize>| order@)
    }

    /// Every round's order has each index once.
    pub open spec fn wf(self) -> bool {
        &&& self.orders().len() == B1_ROTATION_ROUNDS
        &&& forall|r: int|
            0 <= r < self.orders().len() ==> is_order(
                #[trigger] self.orders()[r],
                self.signs().len(),
            )
    }

    /// The schedule that a seed gives for so many dimensions.
    pub fn new(dimension: usize, seed: u64) -> (schedule: RotationSchedule)
        ensures
            schedule.wf(),
            schedule.signs() == Seq::new(
                dimension as nat,
                |i: int| draw(seed, i as nat) % 2 == 1,
            ),
            forall|r: int|
                0 <= r < B1_ROTATION_ROUNDS ==> #[trigger] schedule.orders()[r] == shuffled(
                    dimension as nat,
                    seed,
                    dimension as nat + r as nat * swap_count(dimension as nat),
                    swap_count(dimension as nat),
                ),
    {
        let mut generator = SplitMix64 { state: seed };
        let mut negative_signs: Vec<bool> = Vec::new();
        let mut i: usize = 0;
        while i < dimension
            invariant
                i <= dimension,
                generator.state == state_after(seed, i as nat),
                negative_signs@.len() == i,
                forall|k: int|
                    0 <= k < i ==> #[trigger] negative_signs@[k] == (draw(seed, k as nat) % 2
                        == 1),
            decreases dimension - i,
        {
            let number: u64 = generator.next(Ghost(seed), Ghost(i as nat));
            negative_signs.push(number % 2 == 1);
            i += 1;
        }
        let ghost step = swap_count(dimension as nat);
        let mut permutations: Vec<Vec<usize>> = Vec::new();
        let mut round: usize = 0;
        assert(0 * step == 0) by (nonlinear_arith);
        while round < B1_ROTATION_ROUNDS
            invariant
                round <= B1_ROTATION_ROUNDS,
                step == swap_count(dimension as nat),
                generator.state == state_after(seed, dimension as nat + round as nat * step),
                permutations@.len() == round,
                forall|r: int|
                    0 <= r < round ==> (#[trigger] permutations@[r])@ == shuffled(
                        dimension as nat,
                        seed,
                        dimension as nat + r as nat * step,
                        step,
                    ),
            decreases B1_ROTATION_ROUNDS - round,
        {
            let order: Vec<usize> = shuffled_indices(
                dimension,
                &mut generator,
                Ghost(seed),
                Ghost(dimension as nat + round as nat * step),
            );
            permutations.push(order);
            assert((round + 1) * step == round * step + step) by (nonlinear_arith);
            round += 1;
        }
        let schedule = RotationSchedule { negative_signs, permutations };
        proof {
            assert(schedule.signs() =~= Seq::new(
                dimension as nat,
                |i: int| draw(seed, i as nat) % 2 == 1,
            ));
            assert forall|r: int| 0 <= r < schedule.orders().len() implies is_order(
                #[trigger] schedule.orders()[r],
                schedule.signs().len(),
            ) by {
                law_shuffled_is_an_order(
                    dimension as nat,
                    seed,
                    dimension as nat + r as nat * step,
                    step,
                );
                assert(schedule.orders()[r] == schedule.permutations@[r]@);
            }
        }
        schedule
    }

    /// The values with their signs changed where the schedule says so.
    pub fn flip(&self, values: &Vec<u32>) -> (flipped: Vec<u32>)
        requires
            values@.len() == self.signs().len(),
        ensures
            flipped@ == flipped_of(values@, self.signs()),
    {
        let mut flipped: Vec<u32> = Vec::new();
        let mut i: usize = 0;
        while i < values.len()
            invariant
                i <= values@.len() == self.negative_signs@.len(),
                flipped@.len() == i,
                forall|k: int|
                    0 <= k < i ==> #[trigger] flipped@[k] == if self.negative_signs@[k] {
                        negated(values@[k])
                    } else {
                        values@[k]
                    },
            decreases values@.len() - i,
        {
            let value: u32 = values[i];
            flipped.push(
                if !self.negative_signs[i] {
                    value
                } else if value >= 0x8000_0000 {
                    value - 0x8000_0000
                } else {
                    value + 0x8000_0000
                },
            );
            i += 1;
        }
        assert(flipped@ =~= flipped_of(values@, self.signs()));
        flipped
    }

    /// The values in the order of a round.
    pub fn gather(&self, round: usize, values: &Vec<u32>) -> (gathered: Vec<u32>)
        requires
            self.wf(),
            round < B1_ROTATION_ROUNDS,
            values@.len() == self.signs().len(),
        ensures
            gathered@ == gathered_of(values@, self.orders()[round as int]),
    {
        let ghost order = self.orders()[round as int];
        assert(order == self.permutations@[round as int]@);
        let mut gathered: Vec<u32> = Vec::new();
        let mut i: usize = 0;
        while i < values.len()
            invariant
                i <= values@.len(),
                round < self.permutations@.len(),
                order == self.permutations@[round as int]@,
                is_order(order, values@.len()),
                gathered@.len() == i,
                forall|k: int|
                    0 <= k < i ==> #[trigger] gathered@[k] == values@[order[k] as int],
            decreases values@.len() - i,
        {
            gathered.push(values[self.permutations[round][i]]);
            i += 1;
        }
        assert(gathered@ =~= gathered_of(values@, order));
        gathered
    }

    /// The values put back from the order of a round.
    pub fn scatter(&self, round: usize, values: &Vec<u32>) -> (scattered: Vec<u32>)
        requires
            self.wf(),
            round < B1_ROTATION_ROUNDS,
            values@.len() == self.signs().len(),
        ensures
            scattered@.len() == values@.len(),
            forall|i: int|
                0 <= i < values@.len() ==> scattered@[#[trigger] self.orders()[round as int][i] as int]
                    == values@[i],
    {
        let ghost order = self.orders()[round as int];
        assert(order == self.permutations@[round as int]@);
        let mut scattered: Vec<u32> = values.clone();
        let mut i: usize = 0;
        while i < values.len()
            invariant
                i <= values@.len() == scattered@.len(),
                round < self.permutations@.len(),
                order == self.permutations@[round as int]@,
                is_order(order, values@.len()),
                forall|k: int|
                    0 <= k < i ==> scattered@[#[trigger] order[k] as int] == values@[k],
            decreases values@.len() - i,
        {
            let place: usize = self.permutations[round][i];
            let ghost before = scattered@;
            scattered.set(place, values[i]);
            proof {
                assert forall|k: int| 0 <= k < i + 1 implies scattered@[#[trigger] order[k] as int]
                    == values@[k] by {
                    if k < i {
                        assert(before[order[k] as int] == values@[k]);
                        assert(order[k] != order[i as int]);
                    }
                }
            }
            i += 1;
        }
        scattered
    }
}

/// A single with its sign changed.
pub open spec fn negated(single: u32) -> u32 {
    if single >= 0x8000_0000 {
        (single - 0x8000_0000) as u32
    } else {
        (single + 0x8000_0000) as u32
    }
}

/// Changing a sign changes the sign bit and no other.
pub proof fn law_negating_changes_the_sign_bit(single: u32)
    ensures
        negated(single) == single ^ 0x8000_0000,
{
    assert(single >= 0x8000_0000 ==> (single - 0x8000_0000) as u32 == single ^ 0x8000_0000)
        by (bit_vector);
    assert(single < 0x8000_0000 ==> (single + 0x8000_0000) as u32 == single ^ 0x8000_0000)
        by (bit_vector);
}

/// Values with some signs changed.
pub open spec fn flipped_of(values: Seq<u32>, signs: Seq<bool>) -> Seq<u32> {
    Seq::new(
        values.len(),
        |i: int|
            if signs[i] {
                negated(values[i])
            } else {
                values[i]
            },
    )
}

/// Values in an order.
pub open spec fn gathered_of(values: Seq<u32>, order: Seq<usize>) -> Seq<u32> {
    Seq::new(values.len(), |i: int| values[order[i] as int])
}

/// Flipping twice changes nothing.
pub proof fn law_flipping_twice(values: Seq<u32>, signs: Seq<bool>)
    requires
        values.len() == signs.len(),
    ensures
        flipped_of(flipped_of(values, signs), signs) == values,
{
    assert(flipped_of(flipped_of(values, signs), signs) =~= values);
}

/// Putting values back from an order undoes putting them into it.
pub proof fn law_scatter_undoes_gather(values: Seq<u32>, order: Seq<usize>, scattered: Seq<u32>)
    requires
        is_order(order, values.len()),
        scattered.len() == values.len(),
        forall|i: int|
            0 <= i < values.len() ==> scattered[#[trigger] order[i] as int] == gathered_of(
                values,
                order,
            )[i],
    ensures
        scattered == values,
{
    assert forall|x: int| 0 <= x < values.len() implies scattered[x] == values[x] by {
        assert(has_place(order, x));
        let i = choose|i: int| 0 <= i < order.len() && #[trigger] order[i] == x;
        assert(scattered[order[i] as int] == gathered_of(values, order)[i]);
    }
    assert(scattered =~= values);
}

} // verus!
