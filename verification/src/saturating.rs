//! Unsigned arithmetic that stops at the largest number.

use vstd::prelude::*;

verus! {

/// A number, or the largest 64-bit number where it is larger.
pub open spec fn capped(number: nat) -> nat {
    if number <= u64::MAX {
        number
    } else {
        u64::MAX as nat
    }
}

/// The sum.
pub fn plus(a: u64, b: u64) -> (sum: u64)
    ensures
        sum == capped((a + b) as nat),
{
    match a.checked_add(b) {
        Some(sum) => sum,
        None => u64::MAX,
    }
}

/// The product.
pub fn times(a: u64, b: u64) -> (product: u64)
    ensures
        product == capped((a * b) as nat),
{
    assert(a * b >= 0) by (nonlinear_arith)
        requires
            a >= 0,
            b >= 0,
    ;
    match a.checked_mul(b) {
        Some(product) => product,
        None => u64::MAX,
    }
}

} // verus!
