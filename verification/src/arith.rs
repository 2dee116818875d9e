use vstd::prelude::*;
use vstd::arithmetic::div_mod::{
    lemma_fundamental_div_mod, lemma_mod_multiples_basic, lemma_mod_pos_bound,
};

verus! {

/// `d` is a positive divisor of `n`.
pub open spec fn divides(d: int, n: int) -> bool {
    d > 0 && n % d == 0
}

/// `n` is a prime number: at least 2, and no number strictly between 1 and `n` divides it.
pub open spec fn is_prime(n: int) -> bool {
    n >= 2 && forall|d: int| 2 <= d < n ==> #[trigger] (n % d) != 0
}

/// A divisor splits `n` into a product.
pub proof fn lemma_divisor_product(n: int, d: int)
    requires
        d > 0,
        n % d == 0,
    ensures
        n == d * (n / d),
{
    lemma_fundamental_div_mod(n, d);
}

/// Trial division up to `k` decides primality once `k * k > n`: a number without a
/// divisor in `[2, k)` (other than itself) is prime.
pub proof fn lemma_prime_by_trial(n: int, k: int)
    requires
        n >= 2,
        k >= 2,
        k * k > n,
        forall|d: int| 2 <= d < k && d < n ==> #[trigger] (n % d) != 0,
    ensures
        is_prime(n),
{
    assert forall|d: int| 2 <= d < n implies #[trigger] (n % d) != 0 by {
        if n % d == 0 && d >= k {
            let e = n / d;
            lemma_divisor_product(n, d);
            assert(e >= 1) by (nonlinear_arith)
                requires
                    n == d * e,
                    n >= 2,
                    d >= 2,
            ;
            if e == 1 {
                assert(d * 1 == d);
                assert(n == d);
            } else {
                assert(e * k <= n) by (nonlinear_arith)
                    requires
                        n == d * e,
                        d >= k,
                        e >= 0,
                ;
                assert(e < k) by (nonlinear_arith)
                    requires
                        e * k <= n,
                        k * k > n,
                        k >= 2,
                ;
                assert(e < n) by (nonlinear_arith)
                    requires
                        n == d * e,
                        d >= 2,
                        e >= 2,
                ;
                assert(n % e == 0) by {
                    lemma_mod_multiples_basic(d, e);
                    assert(d * e == n);
                }
                assert(n % e != 0);
            }
        }
    }
}

/// A divisor strictly between 1 and `n` makes `n` composite.
pub proof fn lemma_divisor_not_prime(n: int, d: int)
    requires
        2 <= d < n,
        n % d == 0,
    ensures
        !is_prime(n),
{
}

/// Absolute value.
pub open spec fn abs(x: int) -> int {
    if x < 0 {
        -x
    } else {
        x
    }
}

/// Remainder of Rust's integer `%` on signed values: truncating division, so the
/// remainder takes the sign of the dividend and ignores the sign of the divisor.
pub open spec fn rem_t(a: int, b: int) -> int {
    if a >= 0 {
        a % abs(b)
    } else {
        -((-a) % abs(b))
    }
}

/// The remainder is smaller in magnitude than a nonzero divisor.
pub proof fn lemma_rem_t_bound(a: int, b: int)
    requires
        b != 0,
    ensures
        abs(rem_t(a, b)) < abs(b),
        a >= 0 ==> rem_t(a, b) >= 0,
{
    if a >= 0 {
        lemma_mod_pos_bound(a, abs(b));
    } else {
        lemma_mod_pos_bound(-a, abs(b));
    }
}

/// The value Euclid's algorithm ends with when each step replaces `(a, b)` by
/// `(b, a % b)` with Rust's remainder, until `b` is zero.
pub open spec fn euclid(a: int, b: int) -> int
    decreases abs(b),
{
    if b == 0 {
        a
    } else {
        proof {
            lemma_rem_t_bound(a, b);
        }
        euclid(b, rem_t(a, b))
    }
}

/// Some step of Euclid's algorithm on `i32` values computes `i32::MIN % -1`,
/// which overflows.
pub open spec fn euclid_overflows(a: int, b: int) -> bool
    decreases abs(b),
{
    if b == 0 {
        false
    } else if a == i32::MIN && b == -1 {
        true
    } else {
        proof {
            lemma_rem_t_bound(a, b);
        }
        euclid_overflows(b, rem_t(a, b))
    }
}

/// `d` divides both `a` and `b`.
pub open spec fn common_divisor(d: int, a: int, b: int) -> bool {
    divides(d, a) && divides(d, b)
}

/// The common divisors of `a` and `b` are those of `b` and `a % b`.
proof fn lemma_common_divisor_step(d: int, a: int, b: int)
    requires
        a >= 0,
        b > 0,
        d > 0,
    ensures
        common_divisor(d, a, b) <==> common_divisor(d, b, a % b),
{
    let q = a / b;
    let r = a % b;
    lemma_fundamental_div_mod(a, b);
    assert(a == b * q + r);
    if common_divisor(d, a, b) {
        lemma_divisor_product(a, d);
        lemma_divisor_product(b, d);
        let x = a / d;
        let y = b / d;
        assert(r == d * (x - y * q)) by (nonlinear_arith)
            requires
                a == d * x,
                b == d * y,
                a == b * q + r,
        ;
        lemma_mod_multiples_basic(x - y * q, d);
        assert((x - y * q) * d == d * (x - y * q)) by (nonlinear_arith);
    }
    if common_divisor(d, b, r) {
        lemma_divisor_product(r, d);
        lemma_divisor_product(b, d);
        let x = r / d;
        let y = b / d;
        assert(a == d * (y * q + x)) by (nonlinear_arith)
            requires
                r == d * x,
                b == d * y,
                a == b * q + r,
        ;
        lemma_mod_multiples_basic(y * q + x, d);
        assert((y * q + x) * d == d * (y * q + x)) by (nonlinear_arith);
    }
}

/// On nonnegative inputs, Euclid's algorithm ends with a number whose divisors are
/// exactly the common divisors of the inputs.
pub proof fn lemma_euclid_common_divisors(a: int, b: int, d: int)
    requires
        a >= 0,
        b >= 0,
        d > 0,
    ensures
        euclid(a, b) >= 0,
        common_divisor(d, a, b) <==> divides(d, euclid(a, b)),
    decreases b,
{
    if b == 0 {
        assert(0int % d == 0) by {
            lemma_mod_multiples_basic(0, d);
        }
    } else {
        lemma_rem_t_bound(a, b);
        assert(rem_t(a, b) == a % b);
        lemma_common_divisor_step(d, a, b);
        lemma_euclid_common_divisors(b, a % b, d);
    }
}

/// Two nonnegative numbers end Euclid's algorithm on 1 exactly when 1 is their only
/// positive common divisor.
pub proof fn lemma_euclid_one_iff_coprime(a: int, b: int)
    requires
        a >= 0,
        b >= 0,
    ensures
        (euclid(a, b) == 1) <==> (forall|d: int| #[trigger] common_divisor(d, a, b) ==> d == 1),
{
    let g = euclid(a, b);
    lemma_euclid_common_divisors(a, b, 1);
    if g == 1 {
        assert forall|d: int| #[trigger] common_divisor(d, a, b) implies d == 1 by {
            lemma_euclid_common_divisors(a, b, d);
            if d > 1 {
                assert(1int % d == 1) by {
                    vstd::arithmetic::div_mod::lemma_small_mod(1, d as nat);
                }
            }
        }
    } else {
        if g == 0 {
            lemma_euclid_common_divisors(a, b, 2);
            assert(0int % 2 == 0);
            assert(common_divisor(2, a, b));
        } else {
            lemma_euclid_common_divisors(a, b, g);
            assert(g % g == 0) by {
                lemma_mod_multiples_basic(1, g);
            }
            assert(common_divisor(g, a, b));
        }
    }
}

} // verus!
