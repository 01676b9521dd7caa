//! Sums that may leave the range of a machine number.
//!
//! A tally stands for a number. It holds the number where that fits 64 bits;
//! once it has left the range it never comes back.

use vstd::prelude::*;

verus! {

/// A running total.
pub struct Tally {
    value: Option<u64>,
    number: Ghost<nat>,
}

impl View for Tally {
    type V = nat;

    closed spec fn view(&self) -> nat {
        self.number@
    }
}

/// The larger of two numbers.
pub open spec fn larger_of(a: nat, b: nat) -> nat {
    if a < b {
        b
    } else {
        a
    }
}

impl Tally {
    /// The tally holds the number that it stands for, where it fits.
    pub closed spec fn wf(self) -> bool {
        match self.value {
            Some(value) => value == self.number@,
            None => self.number@ > u64::MAX,
        }
    }

    /// The tally of a number.
    pub fn of(value: u64) -> (tally: Tally)
        ensures
            tally.wf(),
            tally@ == value,
    {
        Tally { value: Some(value), number: Ghost(value as nat) }
    }

    /// The sum.
    pub fn plus(&self, other: &Tally) -> (sum: Tally)
        requires
            self.wf(),
            other.wf(),
        ensures
            sum.wf(),
            sum@ == self@ + other@,
    {
        let value: Option<u64> = match (self.value, other.value) {
            (Some(x), Some(y)) => x.checked_add(y),
            _ => None,
        };
        Tally { value, number: Ghost(self@ + other@) }
    }

    /// The product with a number that is not zero.
    pub fn times(&self, factor: u64) -> (product: Tally)
        requires
            self.wf(),
            factor > 0,
        ensures
            product.wf(),
            product@ == self@ * factor,
    {
        let ghost number = (self@ * factor) as nat;
        proof {
            assert(self@ * factor >= self@) by (nonlinear_arith)
                requires
                    factor >= 1,
                    self@ >= 0,
            ;
        }
        let value: Option<u64> = match self.value {
            Some(x) => x.checked_mul(factor),
            None => None,
        };
        Tally { value, number: Ghost(number) }
    }

    /// The larger one.
    pub fn larger(&self, other: &Tally) -> (most: Tally)
        requires
            self.wf(),
            other.wf(),
        ensures
            most.wf(),
            most@ == larger_of(self@, other@),
    {
        let value: Option<u64> = match (self.value, other.value) {
            (Some(x), Some(y)) => {
                if x < y {
                    Some(y)
                } else {
                    Some(x)
                }
            },
            _ => None,
        };
        Tally { value, number: Ghost(larger_of(self@, other@)) }
    }

    /// The number, where it fits 64 bits.
    pub fn get(&self) -> (number: Option<u64>)
        requires
            self.wf(),
        ensures
            match number {
                Some(value) => value == self@,
                None => self@ > u64::MAX,
            },
    {
        self.value
    }

    /// The number as a size in memory, where it is one.
    pub fn size(&self) -> (size: Option<usize>)
        requires
            self.wf(),
        ensures
            match size {
                Some(value) => value == self@,
                None => self@ > usize::MAX,
            },
    {
        match self.value {
            Some(x) => {
                if x <= usize::MAX as u64 {
                    Some(x as usize)
                } else {
                    None
                }
            },
            None => None,
        }
    }
}

} // verus!
