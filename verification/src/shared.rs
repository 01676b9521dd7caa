//! Shared ownership.

use std::sync::Arc;

use vstd::prelude::*;

verus! {

/// `std::sync::Arc::clone`: another pointer to the same value. Claimed: both
/// point to the same value.
#[verifier::external_body]
pub(crate) fn share<T>(value: &Arc<T>) -> (other: Arc<T>)
    ensures
        other == *value,
{
    Arc::clone(value)
}

/// `std::sync::Arc::try_unwrap`: the value itself where no other pointer to
/// it exists, else the pointer. Claimed: what comes back is the value, or a
/// pointer to it. Which of them comes is not claimed: that depends on what
/// other holders there are.
#[verifier::external_body]
pub(crate) fn take_unshared<T>(value: Arc<T>) -> (result: Result<T, Arc<T>>)
    ensures
        match result {
            Ok(taken) => taken == *value,
            Err(kept) => kept == value,
        },
{
    Arc::try_unwrap(value)
}

} // verus!
