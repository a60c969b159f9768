//! Counters that run for the life of the process and wrap, as a 64-bit
//! atomic count does, rather than stop.

use vstd::prelude::*;

verus! {

/// The count after one more: `n + 1`, wrapping to zero past the top.
pub open spec fn next_count(n: u64) -> u64 {
    if n == u64::MAX {
        0
    } else {
        (n + 1) as u64
    }
}

/// Count one more.
pub fn wrapping_inc(n: u64) -> (m: u64)
    ensures
        m == next_count(n),
{
    if n == u64::MAX {
        0
    } else {
        n + 1
    }
}

} // verus!
