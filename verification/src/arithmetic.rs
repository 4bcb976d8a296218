//! Integer arithmetic: the four basic operations on `i32`, factorial and
//! primality on `u64`.
use vstd::arithmetic::div_mod::lemma_fundamental_div_mod;
use vstd::arithmetic::mul::lemma_mul_is_commutative;
use vstd::prelude::*;

verus! {

/// The remainder of the division of `a` by `b` that truncates toward zero:
/// it has the sign of `a` (or is zero) and a magnitude below that of `b`.
pub open spec fn truncated_rem(a: int, b: int) -> int
    recommends
        b != 0,
{
    if a >= 0 {
        a % b
    } else {
        -((-a) % b)
    }
}

/// `n!`, the product of the integers from 1 to `n`; `0!` is 1.
pub open spec fn factorial_of(n: nat) -> nat
    decreases n,
{
    if n == 0 {
        1
    } else {
        n * factorial_of((n - 1) as nat)
    }
}

/// `d` divides `n` without remainder.
pub open spec fn divides(d: nat, n: nat) -> bool {
    d != 0 && n % d == 0
}

/// `n` is a prime number: greater than 1 and divisible only by 1 and itself.
pub open spec fn prime(n: nat) -> bool {
    n > 1 && forall|d: nat| 1 < d < n ==> !#[trigger] divides(d, n)
}

/// The sum of two integers. The sum must be representable.
pub fn adicionar(a: i32, b: i32) -> (r: i32)
    requires
        i32::MIN <= a + b <= i32::MAX,
    ensures
        r == a + b,
{
    a + b
}

/// The difference `a - b`. The difference must be representable.
pub fn subtrair(a: i32, b: i32) -> (r: i32)
    requires
        i32::MIN <= a - b <= i32::MAX,
    ensures
        r == a - b,
{
    a - b
}

/// The product of two integers. The product must be representable.
pub fn multiplicar(a: i32, b: i32) -> (r: i32)
    requires
        i32::MIN <= a * b <= i32::MAX,
    ensures
        r == a * b,
{
    a * b
}

/// The remainder of `a` divided by `b`, truncating toward zero. The divisor
/// must not be zero, and `i32::MIN % -1` is excluded because the quotient of
/// that division is not representable.
pub fn modulo(a: i32, b: i32) -> (r: i32)
    requires
        b != 0,
        !(a == i32::MIN && b == -1),
    ensures
        r == truncated_rem(a as int, b as int),
{
    a % b
}

/// What makes [`truncated_rem`] the remainder of the truncating division: it
/// differs from `a` by a multiple of `b`, is smaller in magnitude than `b`,
/// and is never of the sign opposite to that of `a`.
pub proof fn lemma_truncated_rem(a: int, b: int)
    requires
        b != 0,
    ensures
        (a - truncated_rem(a, b)) % b == 0,
        a >= 0 ==> 0 <= truncated_rem(a, b) < (if b > 0 { b } else { -b }),
        a < 0 ==> (if b > 0 { -b } else { b }) < truncated_rem(a, b) <= 0,
{
    let x = if a >= 0 { a } else { -a };
    lemma_fundamental_div_mod(x, b);
    let q = x / b;
    let multiple = if a >= 0 { b * q } else { -(b * q) };
    assert(a - truncated_rem(a, b) == multiple);
    assert(multiple % b == 0) by (nonlinear_arith)
        requires
            b != 0,
            multiple == b * q || multiple == -(b * q),
    ;
}

/// Factorials grow with their argument.
pub proof fn lemma_factorial_monotonic(i: nat, j: nat)
    requires
        i <= j,
    ensures
        1 <= factorial_of(i) <= factorial_of(j),
    decreases j,
{
    if j == 0 {
    } else if i == j {
        lemma_factorial_monotonic(0, (j - 1) as nat);
        assert(factorial_of(j) >= 1) by (nonlinear_arith)
            requires
                factorial_of(j) == j * factorial_of((j - 1) as nat),
                j >= 1,
                factorial_of((j - 1) as nat) >= 1,
        ;
    } else {
        lemma_factorial_monotonic(i, (j - 1) as nat);
        assert(factorial_of(j) >= factorial_of((j - 1) as nat)) by (nonlinear_arith)
            requires
                factorial_of(j) == j * factorial_of((j - 1) as nat),
                j >= 1,
                factorial_of((j - 1) as nat) >= 1,
        ;
    }
}

/// The value of `20!`.
proof fn lemma_factorial_of_twenty()
    ensures
        factorial_of(20) == 2_432_902_008_176_640_000,
{
    reveal_with_fuel(factorial_of, 5);
    assert(factorial_of(4) == 24);
    assert(factorial_of(8) == 40_320);
    assert(factorial_of(10) == 3_628_800);
    assert(factorial_of(12) == 479_001_600);
    assert(factorial_of(14) == 87_178_291_200);
    assert(factorial_of(16) == 20_922_789_888_000);
    assert(factorial_of(18) == 6_402_373_705_728_000);
}

/// The factorials that a `u64` can hold are exactly those of 0 to 20.
pub proof fn lemma_factorial_fits_u64(n: nat)
    ensures
        factorial_of(n) <= u64::MAX <==> n <= 20,
{
    lemma_factorial_of_twenty();
    assert(factorial_of(21) == 21 * factorial_of(20));
    if n <= 20 {
        lemma_factorial_monotonic(n, 20);
    } else {
        lemma_factorial_monotonic(21, n);
    }
}

/// `n!`, for the arguments whose factorial a `u64` can hold (see
/// [`lemma_factorial_fits_u64`]).
pub fn factorial(n: u64) -> (r: u64)
    requires
        n <= 20,
    ensures
        r == factorial_of(n as nat),
{
    let mut acc: u64 = 1;
    let mut i: u64 = 0;
    while i < n
        invariant
            i <= n <= 20,
            acc == factorial_of(i as nat),
        decreases n - i,
    {
        i = i + 1;
        proof {
            lemma_factorial_monotonic(i as nat, 20);
            lemma_factorial_fits_u64(20);
            lemma_mul_is_commutative(i as int, acc as int);
        }
        acc = acc * i;
    }
    acc
}

/// A divisor `d` of `n` comes with the cofactor `n / d`, which divides `n` too.
proof fn lemma_cofactor(n: nat, d: nat)
    requires
        n > 0,
        divides(d, n),
    ensures
        d * (n / d) == n,
        divides(n / d, n),
{
    lemma_fundamental_div_mod(n as int, d as int);
    let e = n / d;
    assert(e != 0) by (nonlinear_arith)
        requires
            n == d * e,
            n > 0,
    ;
    assert(n % e == 0) by (nonlinear_arith)
        requires
            n == d * e,
            e > 0,
    ;
}

/// If no number from 2 up to (but excluding) `bound` divides `n`, and
/// `bound * bound` exceeds `n`, then `n` has no proper divisor at all.
proof fn lemma_no_small_divisor_means_prime(n: nat, bound: nat)
    requires
        n > 1,
        bound >= 2,
        bound * bound > n,
        forall|d: nat| 1 < d < bound ==> !#[trigger] divides(d, n),
    ensures
        prime(n),
{
    assert forall|d: nat| 1 < d < n implies !#[trigger] divides(d, n) by {
        if divides(d, n) {
            lemma_cofactor(n, d);
            let e = n / d;
            assert(d >= bound);
            assert(1 < e < bound) by (nonlinear_arith)
                requires
                    d * e == n,
                    bound <= d < n,
                    bound * bound > n,
                    n > 1,
            ;
            assert(false);
        }
    }
}

/// Whether `n` is prime, by trial division up to the square root of `n`.
pub fn is_prime(n: u64) -> (r: bool)
    ensures
        r == prime(n as nat),
{
    if n <= 1 {
        return false;
    }
    let mut i: u64 = 2;
    while i <= n / i
        invariant
            n > 1,
            2 <= i <= n,
            forall|d: nat| 1 < d < i ==> !#[trigger] divides(d, n as nat),
        decreases n - i,
    {
        proof {
            lemma_fundamental_div_mod(n as int, i as int);
            assert(i < n) by (nonlinear_arith)
                requires
                    2 <= i <= n / i,
                    n == i * (n / i) + n % i,
                    0 <= n % i,
            ;
        }
        if n % i == 0 {
            assert(divides(i as nat, n as nat));
            return false;
        }
        i = i + 1;
    }
    proof {
        lemma_fundamental_div_mod(n as int, i as int);
        assert(i * i > n) by (nonlinear_arith)
            requires
                i > n / i,
                i >= 2,
                n == i * (n / i) + n % i,
                0 <= n % i < i,
                n / i >= 0,
        ;
        lemma_no_small_divisor_means_prime(n as nat, i as nat);
    }
    true
}

} // verus!
