use vstd::prelude::*;

pub mod algoritm;
pub mod block;
pub mod helpers;

verus! {

/// Sums two 64-bit counters.
pub fn add(left: u64, right: u64) -> (sum: u64)
    requires
        left + right <= u64::MAX,
    ensures
        sum == left + right,
{
    left + right
}

} // verus!
