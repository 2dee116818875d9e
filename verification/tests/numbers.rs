use rustlabs::checked_arith::{self, Error};
use rustlabs::maximum::maxim;
use rustlabs::prime_search;
use rustlabs::primes::{coprime, prime};
use rustlabs::strict_arith;

#[test]
fn prime_accepts_primes() {
    for n in [2, 3, 5, 7, 11, 13, 97, 7919] {
        assert!(prime(n), "{} is prime", n);
    }
}

#[test]
fn prime_rejects_others() {
    for n in [i32::MIN, -7, -1, 0, 1, 4, 9, 25, 49, 100, 7917] {
        assert!(!prime(n), "{} is not prime", n);
    }
}

#[test]
fn primes_below_hundred() {
    let found: Vec<i32> = (0..100).filter(|&i| prime(i)).collect();
    assert_eq!(
        found,
        vec![2, 3, 5, 7, 11, 13, 17, 19, 23, 29, 31, 37, 41, 43, 47, 53, 59, 61, 67, 71, 73, 79, 83, 89, 97]
    );
}

#[test]
fn coprime_pairs() {
    assert!(coprime(8, 15));
    assert!(!coprime(12, 18));
    assert!(coprime(1, 0));
    assert!(!coprime(0, 0));
    assert!(!coprime(0, 5));
    assert!(coprime(7, -3));
    assert!(!coprime(-4, 6));
    assert!(!coprime(-1, 0));
    assert!(coprime(35, 64));
}

#[test]
fn coprime_agrees_with_common_divisors() {
    for a in 0..40 {
        for b in 0..40 {
            let mut only_one = a != 0 || b != 0;
            for d in 2..=40 {
                if a % d == 0 && b % d == 0 {
                    only_one = false;
                }
            }
            if a == 0 && b == 0 {
                only_one = false;
            }
            assert_eq!(coprime(a, b), only_one, "coprime({}, {})", a, b);
        }
    }
}

#[test]
fn prime16_rejects_two_and_three() {
    assert!(!prime_search::prime(0));
    assert!(!prime_search::prime(1));
    assert!(!prime_search::prime(2));
    assert!(!prime_search::prime(3));
    assert!(!prime_search::prime(25));
    assert!(prime_search::prime(5));
    assert!(prime_search::prime(7));
    assert!(prime_search::prime(65521));
}

#[test]
fn next_prime_values() {
    assert_eq!(prime_search::next_prime(0), Some(5));
    assert_eq!(prime_search::next_prime(63000), Some(63029));
    assert_eq!(prime_search::next_prime(65521), Some(65521));
    assert_eq!(prime_search::next_prime(65522), None);
    assert_eq!(prime_search::next_prime(u16::MAX), None);
}

#[test]
fn next_prime_loop_ends() {
    let mut number: u16 = 63000;
    let mut count = 0;
    while let Some(p) = prime_search::next_prime(number) {
        count += 1;
        if p == u16::MAX {
            break;
        }
        number = p + 1;
    }
    assert_eq!(count, 222);
}

#[test]
fn strict_arith_values() {
    assert_eq!(strict_arith::check_addition(10, 34), 44);
    assert_eq!(strict_arith::check_multiply(15, 23), 345);
    assert_eq!(strict_arith::check_addition(u32::MAX - 1, 1), u32::MAX);
}

#[test]
fn checked_arith_values() {
    assert_eq!(checked_arith::check_addition(10, 34), Ok(44));
    assert_eq!(checked_arith::check_addition(u32::MAX, 1), Err(Error::OverflowErrorType));
    assert_eq!(checked_arith::check_multiply(15, 23), Ok(345));
    assert_eq!(checked_arith::check_multiply(1 << 16, 1 << 16), Err(Error::OverflowErrorType));
}

#[test]
fn usage_values() {
    assert_eq!(checked_arith::usage(500, 60000), Ok(30250000));
    assert_eq!(checked_arith::usage(u32::MAX, 1), Err(Error::OverflowErrorType));
    assert_eq!(checked_arith::usage(70000, 0), Err(Error::OverflowErrorType));
    assert_eq!(checked_arith::usage(0, u32::MAX), Ok(0));
}

#[test]
fn maxim_values() {
    assert_eq!(maxim(10, 20), Some(20));
    assert_eq!(maxim(20, 10), Some(20));
    assert_eq!(maxim(5, 5), None);
    assert_eq!(maxim(i32::MIN, -1), Some(-1));
}
