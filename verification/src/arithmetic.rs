//! Divisibility and primality over the natural numbers.

use vstd::arithmetic::div_mod::{lemma_fundamental_div_mod, lemma_fundamental_div_mod_converse};
use vstd::prelude::*;

verus! {

/// `d` divides `n`: `d` is nonzero and leaves no remainder.
pub open spec fn divides(d: nat, n: nat) -> bool {
    d != 0 && n % d == 0
}

/// `p` is a prime number: at least 2, and divisible by nothing strictly
/// between 1 and itself.
pub open spec fn prime(p: nat) -> bool {
    p >= 2 && forall|d: nat| 1 < d < p ==> !#[trigger] divides(d, p)
}

/// A divisor times its quotient gives the number back.
pub proof fn lemma_divides_quotient(d: nat, n: nat)
    requires
        divides(d, n),
    ensures
        n == d * (n / d),
{
    lemma_fundamental_div_mod(n as int, d as int);
}

/// Every multiple of a nonzero number is divisible by it, with the
/// multiplier as the quotient.
pub proof fn lemma_multiple_divides(d: nat, k: nat)
    requires
        d != 0,
    ensures
        divides(d, d * k),
        (d * k) / d == k,
{
    assert(d * k == k * d) by (nonlinear_arith);
    lemma_fundamental_div_mod_converse((d * k) as int, d as int, k as int, 0);
}

/// A divisor of a positive number is at most that number.
pub proof fn lemma_divisor_bounded(d: nat, n: nat)
    requires
        divides(d, n),
        n > 0,
    ensures
        1 <= d <= n,
        1 <= n / d <= n,
{
    lemma_divides_quotient(d, n);
    let q = n / d;
    assert(1 <= d <= n && 1 <= q <= n) by (nonlinear_arith)
        requires
            n == d * q,
            n > 0,
            d > 0,
    ;
}

/// Divisibility is transitive.
pub proof fn lemma_divides_transitive(a: nat, b: nat, c: nat)
    requires
        divides(a, b),
        divides(b, c),
    ensures
        divides(a, c),
{
    lemma_divides_quotient(a, b);
    lemma_divides_quotient(b, c);
    let x = b / a;
    let y = c / b;
    assert(c == a * (x * y)) by (nonlinear_arith)
        requires
            b == a * x,
            c == b * y,
    ;
    lemma_multiple_divides(a, x * y);
}

/// The quotient by a divisor is itself a divisor.
pub proof fn lemma_quotient_divides(d: nat, n: nat)
    requires
        divides(d, n),
        n > 0,
    ensures
        divides(n / d, n),
        n / (n / d) == d,
{
    lemma_divides_quotient(d, n);
    lemma_divisor_bounded(d, n);
    let q = n / d;
    assert(d * q == q * d) by (nonlinear_arith);
    lemma_multiple_divides(q, d);
}

/// A divisor of two numbers divides their difference.
pub proof fn lemma_divides_difference(d: nat, x: nat, y: nat)
    requires
        divides(d, x),
        divides(d, y),
        y <= x,
    ensures
        divides(d, (x - y) as nat),
{
    lemma_divides_quotient(d, x);
    lemma_divides_quotient(d, y);
    let i = x / d;
    let j = y / d;
    assert(j <= i && x - y == d * (i - j)) by (nonlinear_arith)
        requires
            x == d * i,
            y == d * j,
            y <= x,
            d > 0,
    ;
    lemma_multiple_divides(d, (i - j) as nat);
}

/// A divisor of a number divides every multiple of it.
pub proof fn lemma_divides_multiple(d: nat, n: nat, k: nat)
    requires
        divides(d, n),
    ensures
        divides(d, k * n),
{
    lemma_divides_quotient(d, n);
    let q = n / d;
    assert(k * n == d * (k * q)) by (nonlinear_arith)
        requires
            n == d * q,
    ;
    lemma_multiple_divides(d, k * q);
}

/// A number at least 2 with no divisor from 2 up to a bound whose square
/// exceeds it is prime.
pub proof fn lemma_prime_by_trial(n: nat, bound: nat)
    requires
        n >= 2,
        bound * bound > n,
        forall|d: nat| 2 <= d < bound ==> !#[trigger] divides(d, n),
    ensures
        prime(n),
{
    assert forall|d: nat| 1 < d < n implies !#[trigger] divides(d, n) by {
        if divides(d, n) && d >= bound {
            let e = n / d;
            lemma_divides_quotient(d, n);
            lemma_quotient_divides(d, n);
            assert(2 <= e < bound) by (nonlinear_arith)
                requires
                    n == d * e,
                    1 < d < n,
                    d >= bound,
                    bound * bound > n,
            ;
            assert(divides(e, n));
        }
    }
}

/// Euclid's lemma: a prime that divides a product divides one of the
/// factors.
pub proof fn lemma_prime_divides_product(p: nat, a: nat, b: nat)
    requires
        prime(p),
        divides(p, a * b),
    ensures
        divides(p, a) || divides(p, b),
    decreases a,
{
    if a == 0 {
        assert(0nat % p == 0);
    } else if a == 1 {
        assert(a * b == b) by (nonlinear_arith)
            requires
                a == 1,
        ;
    } else if a >= p {
        // Reduce `a` modulo `p`.
        let q = a / p;
        let r = a % p;
        lemma_fundamental_div_mod(a as int, p as int);
        lemma_multiple_divides(p, q * b);
        assert(p * (q * b) <= a * b && a * b - p * (q * b) == r * b) by (nonlinear_arith)
            requires
                a == p * q + r,
                0 <= r,
        ;
        lemma_divides_difference(p, a * b, p * (q * b));
        lemma_prime_divides_product(p, r, b);
        if divides(p, r) {
            assert(r == 0) by {
                vstd::arithmetic::div_mod::lemma_small_mod(r, p);
            }
        }
    } else {
        // `1 < a < p`, so `a` leaves a remainder in `p`; descend to it.
        assert(!divides(a, p));
        let k = p / a;
        let r = p % a;
        lemma_fundamental_div_mod(p as int, a as int);
        lemma_multiple_divides(p, b);
        lemma_divides_multiple(p, a * b, k);
        assert(k * (a * b) <= p * b && p * b - k * (a * b) == r * b) by (nonlinear_arith)
            requires
                p == a * k + r,
                0 <= r,
        ;
        lemma_divides_difference(p, p * b, k * (a * b));
        lemma_prime_divides_product(p, r, b);
        if divides(p, r) {
            assert(r == 0) by {
                vstd::arithmetic::div_mod::lemma_small_mod(r, p);
            }
        }
    }
}

/// The only prime divisor of a prime is the prime itself.
pub proof fn lemma_prime_divisor_of_prime(p: nat, q: nat)
    requires
        prime(p),
        prime(q),
        divides(p, q),
    ensures
        p == q,
{
    lemma_divisor_bounded(p, q);
}

/// No candidate divisor goes beyond this: the first number of the form
/// `6k + 5` whose square does not fit in 64 bits.
pub const CANDIDATE_LIMIT: u64 = 0x1_0000_0001;

/// A candidate whose square is within a 64-bit number is small enough
/// that the candidates after it, up to the next one to try, are in range
/// and below the number.
pub proof fn lemma_candidate_in_range(i: u64, number: u64)
    requires
        5 <= i,
        i % 6 == 5,
        i * i <= number,
    ensures
        i + 6 <= CANDIDATE_LIMIT,
        (i + 6) * (i + 6) <= CANDIDATE_LIMIT * CANDIDATE_LIMIT,
        i + 2 < number,
{
    assert(i < 0x1_0000_0000 && i + 2 < number) by (nonlinear_arith)
        requires
            i * i <= number,
            number <= u64::MAX,
            5 <= i,
    ;
    assert((i + 6) * (i + 6) <= CANDIDATE_LIMIT * CANDIDATE_LIMIT) by (nonlinear_arith)
        requires
            0 <= i + 6 <= CANDIDATE_LIMIT,
    ;
}

} // verus!
