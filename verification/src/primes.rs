use vstd::prelude::*;
use crate::arith::{
    abs, common_divisor, euclid, euclid_overflows, is_prime, lemma_divisor_not_prime,
    lemma_euclid_one_iff_coprime, lemma_prime_by_trial, lemma_rem_t_bound, rem_t,
};

verus! {

/// Trial division by odd numbers `i` while `i * i <= n`; `i * i` leaves `i32` only for
/// primes above `46340 * 46340`.
pub open spec fn trial_overflows(n: int) -> bool {
    is_prime(n) && n > 46340 * 46340
}

/// Whether `n` is prime, by trial division.
pub fn prime(n: i32) -> (r: bool)
    requires
        !trial_overflows(n as int),
    ensures
        r == is_prime(n as int),
{
    if n < 2 {
        return false;
    }
    if n > 2 && n % 2 == 0 {
        proof {
            lemma_divisor_not_prime(n as int, 2);
        }
        return false;
    }
    let mut i: i32 = 3;
    loop
        invariant
            n >= 2,
            n == 2 || n % 2 != 0,
            3 <= i,
            i == 3 || (i - 1) * (i - 1) <= n,
            forall|d: int| 2 <= d < i && d < n ==> #[trigger] ((n as int) % d) != 0,
            !trial_overflows(n as int),
        ensures
            is_prime(n as int),
        decreases n - i,
    {
        if i > 46340 {
            assert((i - 1) * (i - 1) >= 46340 * 46340) by (nonlinear_arith)
                requires
                    i > 46340,
            ;
            assert(i * i > n) by (nonlinear_arith)
                requires
                    i > 46340,
                    n <= i32::MAX,
            ;
            proof {
                lemma_prime_by_trial(n as int, i as int);
            }
            assert(false);
        }
        assert(i * i <= 46340 * 46340) by (nonlinear_arith)
            requires
                3 <= i <= 46340,
        ;
        if i * i > n {
            proof {
                lemma_prime_by_trial(n as int, i as int);
            }
            break;
        }
        assert(i < n) by (nonlinear_arith)
            requires
                i * i <= n,
                i >= 3,
        ;
        if n % i == 0 {
            proof {
                lemma_divisor_not_prime(n as int, i as int);
            }
            return false;
        }
        i = i + 1;
    }
    return true;
}

/// Rust's `%` on `i32`, for divisors other than `0` and for every pair but
/// `(i32::MIN, -1)`: a remainder by a negative divisor equals the remainder by its
/// magnitude.
fn rem(a: i32, b: i32) -> (r: i32)
    requires
        b != 0,
        !(a == i32::MIN && b == -1),
    ensures
        r == rem_t(a as int, b as int),
{
    if b > 0 {
        a % b
    } else if b == i32::MIN {
        proof {
            let m = 0x8000_0000int;
            if a >= 0 {
                vstd::arithmetic::div_mod::lemma_small_mod(a as nat, m as nat);
            } else if a > i32::MIN {
                vstd::arithmetic::div_mod::lemma_small_mod((-a) as nat, m as nat);
            } else {
                vstd::arithmetic::div_mod::lemma_mod_self_0(m);
            }
        }
        if a == i32::MIN {
            0
        } else {
            a
        }
    } else {
        a % (-b)
    }
}

/// Whether `n1` and `n2` are coprime: Euclid's algorithm with Rust's remainder ends on 1.
pub fn coprime(n1: i32, n2: i32) -> (r: bool)
    requires
        !euclid_overflows(n1 as int, n2 as int),
    ensures
        r == (euclid(n1 as int, n2 as int) == 1),
        n1 >= 0 && n2 >= 0 ==> (r <==> forall|d: int|
            #[trigger] common_divisor(d, n1 as int, n2 as int) ==> d == 1),
{
    let mut n1 = n1;
    let mut n2 = n2;
    let ghost a0 = n1 as int;
    let ghost b0 = n2 as int;
    let mut r: i32;
    while n2 != 0
        invariant
            euclid(n1 as int, n2 as int) == euclid(a0, b0),
            !euclid_overflows(n1 as int, n2 as int),
        decreases abs(n2 as int),
    {
        proof {
            lemma_rem_t_bound(n1 as int, n2 as int);
        }
        r = rem(n1, n2);
        n1 = n2;
        n2 = r;
    }
    proof {
        if a0 >= 0 && b0 >= 0 {
            lemma_euclid_one_iff_coprime(a0, b0);
        }
    }
    if n1 == 1 {
        return true;
    }
    return false;
}

} // verus!
