use vstd::prelude::*;
use crate::arith::{is_prime, lemma_divisor_not_prime, lemma_prime_by_trial};

verus! {

/// What the 16-bit test reports: it rejects every multiple of 2 and of 3 first, so it
/// holds of the primes above 3.
pub open spec fn prime16(x: int) -> bool {
    is_prime(x) && x > 3
}

/// Whether `x` is a prime greater than 3 (multiples of 2 and 3, the numbers 2 and 3
/// among them, are turned away before trial division).
pub fn prime(x: u16) -> (r: bool)
    ensures
        r == prime16(x as int),
{
    if x == 0 || x == 1 {
        return false;
    }
    if x % 2 == 0 || x % 3 == 0 {
        proof {
            if x > 3 {
                if x % 2 == 0 {
                    lemma_divisor_not_prime(x as int, 2);
                } else {
                    lemma_divisor_not_prime(x as int, 3);
                }
            }
        }
        return false;
    }
    let mut i: u32 = 3;
    while i * i <= x as u32
        invariant
            x >= 5,
            (x as int) % 2 != 0,
            (x as int) % 3 != 0,
            3 <= i <= 256,
            i * i <= 65536,
            forall|d: int| 2 <= d < i && d < x ==> #[trigger] ((x as int) % d) != 0,
        decreases 256 - i,
    {
        assert(i < 256) by (nonlinear_arith)
            requires
                i * i <= x,
                x <= 65535,
                i >= 3,
        ;
        assert(i < x) by (nonlinear_arith)
            requires
                i * i <= x,
                i >= 3,
        ;
        if x % i as u16 == 0 {
            proof {
                lemma_divisor_not_prime(x as int, i as int);
            }
            return false;
        }
        i = i + 1;
        assert(i * i <= 65536) by (nonlinear_arith)
            requires
                i <= 256,
        ;
    }
    proof {
        lemma_prime_by_trial(x as int, i as int);
    }
    return true;
}

/// The first number from `x` on, below `u16::MAX`, that `prime` accepts; `None` when
/// there is none.
pub fn next_prime(x: u16) -> (r: Option<u16>)
    ensures
        match r {
            Some(p) => x <= p < u16::MAX && prime16(p as int) && forall|q: int|
                x <= q < p ==> !#[trigger] prime16(q),
            None => forall|q: int| x <= q < u16::MAX ==> !#[trigger] prime16(q),
        },
{
    let mut next_number = x;
    while next_number < u16::MAX
        invariant
            x <= next_number,
            forall|q: int| x <= q < next_number ==> !#[trigger] prime16(q),
        decreases u16::MAX - next_number,
    {
        if prime(next_number) == true {
            return Some(next_number);
        }
        next_number = next_number + 1;
    }
    return None;
}

} // verus!
