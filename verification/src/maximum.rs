use vstd::prelude::*;

verus! {

/// The larger of two distinct numbers; `None` when they are equal.
pub fn maxim(a: i32, b: i32) -> (r: Option<i32>)
    ensures
        a > b ==> r == Some(a),
        b > a ==> r == Some(b),
        a == b ==> r is None,
{
    if a > b {
        Some(a)
    } else if b > a {
        Some(b)
    } else {
        None
    }
}

} // verus!
