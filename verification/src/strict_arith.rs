use vstd::prelude::*;

verus! {

/// `n1 + n2`; the sum must fit in `u32` (the caller's program stops otherwise).
pub fn check_addition(n1: u32, n2: u32) -> (r: u32)
    requires
        n1 + n2 <= u32::MAX,
    ensures
        r == n1 + n2,
{
    match n1.checked_add(n2) {
        Some(result) => result,
        None => n1 + n2,
    }
}

/// `n1 * n2`; the product must fit in `u32` (the caller's program stops otherwise).
pub fn check_multiply(n1: u32, n2: u32) -> (r: u32)
    requires
        n1 * n2 <= u32::MAX,
    ensures
        r == n1 * n2,
{
    match n1.checked_mul(n2) {
        Some(result) => result,
        None => n1 * n2,
    }
}

} // verus!
