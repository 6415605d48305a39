//! Rebuilding a number from its factor set: each factor raised to the
//! number of times it divides the number.

use crate::arithmetic::{
    divides, lemma_divides_quotient, lemma_divides_transitive, lemma_divisor_bounded,
    lemma_prime_divides_product, lemma_prime_divisor_of_prime, lemma_quotient_divides, prime,
};
use crate::factorizer::distinct_prime_factors;
use vstd::arithmetic::div_mod::{lemma_div_decreases, lemma_mod_self_0};
use vstd::arithmetic::power::{lemma_pow0, pow};
use vstd::prelude::*;

verus! {

/// How many times `p` divides `n`: the number of divisions by `p` that `n`
/// takes until `p` divides it no longer. It is 0 where that count has no
/// end, for `p` below 2 and for `n == 0`.
pub open spec fn multiplicity(n: nat, p: nat) -> nat
    decreases n,
{
    if p >= 2 && n >= 1 && n % p == 0 {
        proof {
            lemma_div_decreases(n as int, p as int);
        }
        1 + multiplicity(n / p, p)
    } else {
        0
    }
}

/// The product, over the members `p` of `factors` from 1 to `bound`, of
/// `p` raised to its multiplicity in `n`.
pub open spec fn power_product(n: u64, factors: Set<u64>, bound: u64) -> int
    decreases bound,
{
    if bound == 0 {
        1
    } else {
        let below = power_product(n, factors, (bound - 1) as u64);
        if factors.contains(bound) {
            pow(bound as int, multiplicity(n as nat, bound as nat)) * below
        } else {
            below
        }
    }
}

/// `n` with every factor `p` divided out.
spec fn stripped(n: nat, p: nat) -> nat
    decreases n,
{
    if p >= 2 && n >= 1 && n % p == 0 {
        proof {
            lemma_div_decreases(n as int, p as int);
        }
        stripped(n / p, p)
    } else {
        n
    }
}

/// `n` with every factor from 2 to `bound` divided out, smallest first.
spec fn rough_part(n: nat, bound: nat) -> nat
    decreases bound,
{
    if bound == 0 {
        n
    } else {
        stripped(rough_part(n, (bound - 1) as nat), bound)
    }
}

/// A positive number is the power of `p` that its multiplicity gives, times
/// what is left when `p` is divided out, and `p` does not divide what is
/// left.
proof fn lemma_stripped(n: nat, p: nat)
    requires
        n >= 1,
    ensures
        n == pow(p as int, multiplicity(n, p)) * stripped(n, p),
        stripped(n, p) >= 1,
        divides(stripped(n, p), n),
        p >= 2 ==> !divides(p, stripped(n, p)),
    decreases n,
{
    if p >= 2 && n % p == 0 {
        let m = n / p;
        lemma_div_decreases(n as int, p as int);
        lemma_divides_quotient(p, n);
        lemma_divisor_bounded(p, n);
        lemma_quotient_divides(p, n);
        lemma_stripped(m, p);
        lemma_divides_transitive(stripped(m, p), m, n);
        let e = multiplicity(m, p);
        assert(pow(p as int, e + 1) == p * pow(p as int, e)) by {
            reveal(pow);
        }
        assert(n == pow(p as int, e + 1) * stripped(m, p)) by (nonlinear_arith)
            requires
                n == p * m,
                m == pow(p as int, e) * stripped(m, p),
                pow(p as int, e + 1) == p * pow(p as int, e),
        ;
    } else {
        lemma_pow0(p as int);
        assert(n % n == 0) by {
            lemma_mod_self_0(n as int);
        }
    }
}

/// What is left after dividing out the factors up to `bound` is a divisor
/// that nothing from 2 to `bound` divides.
proof fn lemma_rough_part(n: nat, bound: nat)
    requires
        n >= 1,
    ensures
        rough_part(n, bound) >= 1,
        divides(rough_part(n, bound), n),
        forall|d: nat| 2 <= d <= bound ==> !#[trigger] divides(d, rough_part(n, bound)),
    decreases bound,
{
    if bound == 0 {
        assert(n % n == 0) by {
            lemma_mod_self_0(n as int);
        }
    } else {
        let before = rough_part(n, (bound - 1) as nat);
        let after = rough_part(n, bound);
        lemma_rough_part(n, (bound - 1) as nat);
        lemma_stripped(before, bound);
        lemma_divides_transitive(after, before, n);
        assert forall|d: nat| 2 <= d <= bound implies !#[trigger] divides(d, after) by {
            if d < bound && divides(d, after) {
                lemma_divides_transitive(d, after, before);
            }
        }
    }
}

/// A divisor from 2 upwards of what is left below it is a prime factor.
proof fn lemma_rough_divisor_prime(n: nat, b: nat)
    requires
        n >= 1,
        b >= 2,
        divides(b, rough_part(n, (b - 1) as nat)),
    ensures
        prime(b),
        divides(b, n),
{
    let left = rough_part(n, (b - 1) as nat);
    lemma_rough_part(n, (b - 1) as nat);
    lemma_divides_transitive(b, left, n);
    assert forall|d: nat| 1 < d < b implies !#[trigger] divides(d, b) by {
        if divides(d, b) {
            lemma_divides_transitive(d, b, left);
        }
    }
}

/// Dividing by a prime leaves the multiplicity of every other prime as it
/// was.
proof fn lemma_multiplicity_of_quotient(m: nat, q: nat, p: nat)
    requires
        m >= 1,
        prime(q),
        prime(p),
        q != p,
        divides(q, m),
    ensures
        multiplicity(m / q, p) == multiplicity(m, p),
    decreases m,
{
    let k = m / q;
    lemma_divides_quotient(q, m);
    lemma_divisor_bounded(q, m);
    lemma_quotient_divides(q, m);
    if divides(p, m) {
        // `p` divides `q * k` and is not `q`, so it divides `k`; by the same
        // token `q` divides `m / p`, and the order of the two divisions does
        // not matter.
        lemma_prime_divides_product(p, q, k);
        if divides(p, q) {
            lemma_prime_divisor_of_prime(p, q);
        }
        let j = m / p;
        lemma_divides_quotient(p, m);
        lemma_divisor_bounded(p, m);
        lemma_div_decreases(m as int, p as int);
        lemma_prime_divides_product(q, p, j);
        if divides(q, p) {
            lemma_prime_divisor_of_prime(q, p);
        }
        lemma_divides_quotient(q, j);
        lemma_divides_quotient(p, k);
        assert(k / p == j / q) by (nonlinear_arith)
            requires
                m == q * k,
                m == p * j,
                j == q * (j / q),
                k == p * (k / p),
                p >= 2,
                q >= 2,
        ;
        lemma_multiplicity_of_quotient(j, q, p);
    } else if divides(p, k) {
        lemma_divides_transitive(p, k, m);
    }
}

/// Dividing out a prime altogether leaves the multiplicity of every other
/// prime as it was.
proof fn lemma_multiplicity_of_stripped(m: nat, q: nat, p: nat)
    requires
        m >= 1,
        prime(q),
        prime(p),
        q != p,
    ensures
        multiplicity(stripped(m, q), p) == multiplicity(m, p),
    decreases m,
{
    if m % q == 0 {
        lemma_div_decreases(m as int, q as int);
        lemma_divisor_bounded(q, m);
        lemma_multiplicity_of_quotient(m, q, p);
        lemma_multiplicity_of_stripped(m / q, q, p);
    }
}

/// A prime has the same multiplicity in what is left below it as in the
/// number itself.
proof fn lemma_multiplicity_of_rough_part(n: nat, bound: nat, p: nat)
    requires
        n >= 1,
        prime(p),
        bound < p,
    ensures
        multiplicity(rough_part(n, bound), p) == multiplicity(n, p),
    decreases bound,
{
    if bound > 0 {
        let before = rough_part(n, (bound - 1) as nat);
        lemma_multiplicity_of_rough_part(n, (bound - 1) as nat, p);
        lemma_rough_part(n, (bound - 1) as nat);
        if bound >= 2 && divides(bound, before) {
            lemma_rough_divisor_prime(n, bound);
            lemma_multiplicity_of_stripped(before, bound, p);
        }
    }
}

/// The prime powers up to `bound`, times what is left above `bound`, give
/// the number.
proof fn lemma_power_product_below(n: u64, bound: u64)
    requires
        n >= 2,
    ensures
        power_product(n, distinct_prime_factors(n), bound) * rough_part(n as nat, bound as nat)
            == n,
    decreases bound,
{
    let factors = distinct_prime_factors(n);
    if bound == 0 {
        assert(1 * rough_part(n as nat, 0) == n);
    } else {
        let before = rough_part(n as nat, (bound - 1) as nat);
        let after = rough_part(n as nat, bound as nat);
        let below = power_product(n, factors, (bound - 1) as u64);
        lemma_power_product_below(n, (bound - 1) as u64);
        lemma_rough_part(n as nat, (bound - 1) as nat);
        lemma_stripped(before, bound as nat);
        if factors.contains(bound) {
            lemma_multiplicity_of_rough_part(n as nat, (bound - 1) as nat, bound as nat);
            let power = pow(bound as int, multiplicity(n as nat, bound as nat));
            assert((power * below) * after == n) by (nonlinear_arith)
                requires
                    below * before == n,
                    before == power * after,
            ;
        } else {
            if bound >= 2 && divides(bound as nat, before) {
                lemma_rough_divisor_prime(n as nat, bound as nat);
            }
            assert(after == before);
        }
    }
}

/// A number from 1 upwards is the product of the members of its factor
/// set, each raised to the number of times it divides the number. The
/// members all lie between 1 and the number, so the product up to the
/// number leaves none of them out.
pub proof fn lemma_factors_rebuild_number(n: u64)
    requires
        n >= 1,
    ensures
        power_product(n, distinct_prime_factors(n), n) == n,
        forall|p: u64| #[trigger] distinct_prime_factors(n).contains(p) ==> 1 <= p <= n,
{
    assert forall|p: u64| #[trigger] distinct_prime_factors(n).contains(p) implies 1 <= p <= n by {
        if n >= 2 {
            lemma_divisor_bounded(p as nat, n as nat);
        }
    }
    if n == 1 {
        reveal_with_fuel(power_product, 2);
        lemma_pow0(1);
    } else {
        let left = rough_part(n as nat, n as nat);
        lemma_power_product_below(n, n);
        lemma_rough_part(n as nat, n as nat);
        lemma_divisor_bounded(left, n as nat);
        if left >= 2 {
            assert(left % left == 0) by {
                lemma_mod_self_0(left as int);
            }
            assert(divides(left, left));
        }
        assert(power_product(n, distinct_prime_factors(n), n) * 1 == n);
    }
}

} // verus!
