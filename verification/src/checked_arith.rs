use vstd::prelude::*;

verus! {

/// The one way these operations fail: the result does not fit in `u32`.
#[derive(Debug, PartialEq, Eq, Structural)]
pub enum Error {
    OverflowErrorType,
}

/// `n1 + n2`, or an overflow error when the sum leaves `u32`.
pub fn check_addition(n1: u32, n2: u32) -> (r: Result<u32, Error>)
    ensures
        n1 + n2 <= u32::MAX ==> r == Ok::<u32, Error>((n1 + n2) as u32),
        n1 + n2 > u32::MAX ==> r == Err::<u32, Error>(Error::OverflowErrorType),
{
    match n1.checked_add(n2) {
        Some(result) => Ok(result),
        None => Err(Error::OverflowErrorType),
    }
}

/// `n1 * n2`, or an overflow error when the product leaves `u32`.
pub fn check_multiply(n1: u32, n2: u32) -> (r: Result<u32, Error>)
    ensures
        n1 * n2 <= u32::MAX ==> r == Ok::<u32, Error>((n1 * n2) as u32),
        n1 * n2 > u32::MAX ==> r == Err::<u32, Error>(Error::OverflowErrorType),
{
    match n1.checked_mul(n2) {
        Some(result) => Ok(result),
        None => Err(Error::OverflowErrorType),
    }
}

/// `(n1 + n2) * n1`, or an overflow error when the sum or the product leaves `u32`.
pub fn usage(n1: u32, n2: u32) -> (r: Result<u32, Error>)
    ensures
        (n1 + n2 <= u32::MAX && (n1 + n2) * n1 <= u32::MAX) ==> r == Ok::<u32, Error>(
            ((n1 + n2) * n1) as u32,
        ),
        !(n1 + n2 <= u32::MAX && (n1 + n2) * n1 <= u32::MAX) ==> r == Err::<u32, Error>(
            Error::OverflowErrorType,
        ),
{
    let sum = match check_addition(n1, n2) {
        Ok(s) => s,
        Err(e) => return Err(e),
    };
    let product = match check_multiply(sum, n1) {
        Ok(p) => p,
        Err(e) => return Err(e),
    };
    Ok(product)
}

} // verus!
