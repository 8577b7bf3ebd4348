//! Saturating products, as `u64::saturating_mul` and `usize::saturating_mul` compute them.
use vstd::prelude::*;

verus! {

/// The product, or `u64::MAX` when it does not fit.
pub fn saturating_mul_u64(x: u64, y: u64) -> (r: u64)
    ensures
        r == (if x * y > u64::MAX {
            u64::MAX as int
        } else {
            x * y
        }),
{
    match x.checked_mul(y) {
        Some(v) => v,
        None => u64::MAX,
    }
}

/// The product, or `usize::MAX` when it does not fit.
pub fn saturating_mul_usize(x: usize, y: usize) -> (r: usize)
    ensures
        r == (if x * y > usize::MAX {
            usize::MAX as int
        } else {
            x * y
        }),
{
    match x.checked_mul(y) {
        Some(v) => v,
        None => usize::MAX,
    }
}

} // verus!
