use mathutils::arithmetic::{adicionar, factorial, is_prime, modulo, multiplicar, subtrair};

#[test]
fn adicionar_sums() {
    assert_eq!(adicionar(15, 4), 19);
    assert_eq!(adicionar(-15, 4), -11);
    assert_eq!(adicionar(0, 0), 0);
    assert_eq!(adicionar(i32::MAX, 0), i32::MAX);
    assert_eq!(adicionar(i32::MIN, i32::MAX), -1);
}

#[test]
fn subtrair_takes_the_second_from_the_first() {
    assert_eq!(subtrair(15, 4), 11);
    assert_eq!(subtrair(4, 15), -11);
    assert_eq!(subtrair(-1, i32::MAX), i32::MIN);
    assert_eq!(subtrair(i32::MIN, -1), i32::MIN + 1);
}

#[test]
fn multiplicar_multiplies() {
    assert_eq!(multiplicar(15, 4), 60);
    assert_eq!(multiplicar(-15, 4), -60);
    assert_eq!(multiplicar(-15, -4), 60);
    assert_eq!(multiplicar(i32::MAX, 0), 0);
    assert_eq!(multiplicar(i32::MAX, -1), i32::MIN + 1);
    assert_eq!(multiplicar(46340, 46340), 2_147_395_600);
}

#[test]
fn modulo_of_positive_operands() {
    assert_eq!(modulo(15, 4), 3);
    assert_eq!(modulo(16, 4), 0);
    assert_eq!(modulo(3, 7), 3);
    assert_eq!(modulo(0, 5), 0);
}

#[test]
fn modulo_takes_the_sign_of_the_dividend() {
    assert_eq!(modulo(-7, 3), -1);
    assert_eq!(modulo(7, -3), 1);
    assert_eq!(modulo(-7, -3), -1);
    assert_eq!(modulo(-6, 3), 0);
}

#[test]
fn modulo_at_the_limits() {
    assert_eq!(modulo(i32::MIN, 2), 0);
    assert_eq!(modulo(i32::MIN, i32::MAX), -1);
    assert_eq!(modulo(i32::MAX, i32::MIN), i32::MAX);
    assert_eq!(modulo(i32::MIN, 1), 0);
    assert_eq!(modulo(i32::MAX, -1), 0);
}

#[test]
fn factorial_of_zero_and_one_is_one() {
    assert_eq!(factorial(0), 1);
    assert_eq!(factorial(1), 1);
}

#[test]
fn factorial_values() {
    assert_eq!(factorial(2), 2);
    assert_eq!(factorial(5), 120);
    assert_eq!(factorial(10), 3_628_800);
    assert_eq!(factorial(19), 121_645_100_408_832_000);
}

#[test]
fn factorial_of_twenty_is_the_last_that_fits() {
    assert_eq!(factorial(20), 2_432_902_008_176_640_000);
    assert!(factorial(20).checked_mul(21).is_none());
}

#[test]
fn factorial_follows_its_recurrence() {
    for n in 1..=20u64 {
        assert_eq!(factorial(n), n * factorial(n - 1));
    }
}

#[test]
fn is_prime_rejects_zero_and_one() {
    assert!(!is_prime(0));
    assert!(!is_prime(1));
}

#[test]
fn is_prime_on_small_numbers() {
    let primes = [2u64, 3, 5, 7, 11, 13, 17, 19, 23, 29, 31, 37, 41, 43, 47];
    for n in 0..50u64 {
        assert_eq!(is_prime(n), primes.contains(&n), "n = {}", n);
    }
}

#[test]
fn is_prime_seventeen_and_eighteen() {
    assert!(is_prime(17));
    assert!(!is_prime(18));
}

#[test]
fn is_prime_rejects_squares_of_primes() {
    assert!(!is_prime(4));
    assert!(!is_prime(9));
    assert!(!is_prime(25));
    assert!(!is_prime(49));
    assert!(!is_prime(1_000_003 * 1_000_003));
}

#[test]
fn is_prime_on_large_numbers() {
    assert!(is_prime(1_000_003));
    assert!(is_prime(4_294_967_291));
    assert!(!is_prime(4_294_967_295));
    assert!(!is_prime(u64::MAX));
    assert!(!is_prime(1_000_003 * 999_983));
}
