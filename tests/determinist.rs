use primes::{is_prime, sqrt_u128};

fn test_is_prime(n: u128) -> bool {
    for val in 2..n {
        if n % val == 0 {
            return false;
        }
    }
    true
}

#[test]
fn determinist_is_prime_5() {
    assert_eq!(is_prime(5), true);
}

#[test]
fn determinist_is_prime_2() {
    assert_eq!(is_prime(2), true);
}

#[test]
fn determinist_is_prime_4() {
    assert_eq!(is_prime(4), false);
}

#[test]
fn determinist_prime_numbers_between_2_1000() {
    for n in 2..=1000 {
        assert_eq!(is_prime(n), test_is_prime(n));
    }
}

#[test]
fn sqrt_u128_9() {
    assert_eq!(sqrt_u128(9), 3);
}

#[test]
fn sqrt_u128_10() {
    assert_eq!(sqrt_u128(10), 3);
}

#[test]
fn sqrt_u128_perfect_to_100() {
    for i in 1..100 {
        assert_eq!(i, sqrt_u128(i * i));
    }
}

#[test]
fn sqrt_u128_edges() {
    assert_eq!(sqrt_u128(0), 0);
    assert_eq!(sqrt_u128(1), 1);
    assert_eq!(sqrt_u128(99), 9);
    assert_eq!(sqrt_u128(1_000_000_007), 31622);
}

#[test]
fn is_prime_small_edges() {
    assert_eq!(is_prime(0), false);
    assert_eq!(is_prime(1), true);
    assert_eq!(is_prime(3), true);
    assert_eq!(is_prime(9), false);
    assert_eq!(is_prime(25), false);
    assert_eq!(is_prime(1_000_000_007), true);
    assert_eq!(is_prime(1_000_000_007 * 3), false);
}
