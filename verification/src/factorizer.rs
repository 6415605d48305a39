//! The factorizer: distinct prime factors by trial division, with the
//! primality oracle as a shortcut for primes.

use crate::arithmetic::{
    divides, lemma_candidate_in_range, lemma_divides_quotient, lemma_divides_transitive,
    lemma_divisor_bounded, lemma_prime_by_trial, lemma_prime_divides_product,
    lemma_prime_divisor_of_prime, lemma_quotient_divides, prime, CANDIDATE_LIMIT,
};
use crate::oracle::{after_query, consistent, is_prime, PrimalityCache};
use crate::reconstruction::{lemma_factors_rebuild_number, power_product};
use std::collections::HashSet;
use vstd::prelude::*;

verus! {

/// The factor set of `n`: the primes that divide it. For 0 and 1, which
/// have no such description, it is the number alone.
pub open spec fn distinct_prime_factors(n: u64) -> Set<u64> {
    if n <= 1 {
        set![n]
    } else {
        Set::new(|p: u64| prime(p as nat) && divides(p as nat, n as nat))
    }
}

/// Where trial division stands: `remaining` is what is left of `number`
/// after dividing out the primes in `found`, and nothing from 2 up to
/// `next` divides it any more.
spec fn partly_factored(number: nat, remaining: nat, found: Set<u64>, next: nat) -> bool {
    &&& divides(remaining, number)
    &&& forall|p: u64| #[trigger]
        found.contains(p) ==> prime(p as nat) && divides(p as nat, number)
    &&& forall|p: u64|
        prime(p as nat) && #[trigger] divides(p as nat, number) ==> found.contains(p) || divides(
            p as nat,
            remaining,
        )
    &&& forall|d: nat| 2 <= d < next ==> !#[trigger] divides(d, remaining)
}

/// Dividing out a candidate that divides what remains: the candidate is a
/// prime factor, and the quotient is what remains then.
proof fn lemma_divide_out(number: nat, remaining: nat, found: Set<u64>, next: nat, c: u64)
    requires
        number >= 1,
        partly_factored(number, remaining, found, next),
        2 <= c <= next,
        divides(c as nat, remaining),
    ensures
        prime(c as nat),
        1 <= remaining / (c as nat) < remaining,
        partly_factored(number, remaining / (c as nat), found.insert(c), next),
{
    let divisor = c as nat;
    let rest = remaining / divisor;
    let grown = found.insert(c);
    lemma_divisor_bounded(remaining, number);
    lemma_divisor_bounded(divisor, remaining);
    lemma_divides_quotient(divisor, remaining);
    lemma_quotient_divides(divisor, remaining);
    lemma_divides_transitive(rest, remaining, number);
    lemma_divides_transitive(divisor, remaining, number);
    assert(rest < remaining) by (nonlinear_arith)
        requires
            remaining == divisor * rest,
            divisor >= 2,
            rest >= 1,
    ;
    assert forall|d: nat| 1 < d < divisor implies !#[trigger] divides(d, divisor) by {
        if divides(d, divisor) {
            lemma_divides_transitive(d, divisor, remaining);
        }
    }
    assert forall|p: u64|
        prime(p as nat) && #[trigger] divides(p as nat, number) implies grown.contains(p)
        || divides(p as nat, rest) by {
        if !found.contains(p) {
            lemma_prime_divides_product(p as nat, divisor, rest);
            if divides(p as nat, divisor) {
                lemma_prime_divisor_of_prime(p as nat, divisor);
            }
        }
    }
    assert forall|d: nat| 2 <= d < next implies !#[trigger] divides(d, rest) by {
        if divides(d, rest) {
            lemma_divides_transitive(d, rest, remaining);
        }
    }
}

/// Candidates that are multiples of 2 or of 3 need no trial once 2 and 3
/// are exhausted: if nothing from 2 up to `from` divides `n`, and `from`
/// does not, then nothing up to the next number coprime to 6 does.
proof fn lemma_skip_multiples(n: nat, from: nat, step: nat)
    requires
        from >= 5,
        (from % 6 == 5 && step == 2) || (from % 6 == 1 && step == 4),
        forall|d: nat| 2 <= d < from ==> !#[trigger] divides(d, n),
        !divides(from, n),
    ensures
        forall|d: nat| 2 <= d < from + step ==> !#[trigger] divides(d, n),
{
    assert forall|d: nat| 2 <= d < from + step implies !#[trigger] divides(d, n) by {
        if divides(d, n) && d > from {
            if d % 2 == 0 {
                lemma_divides_transitive(2, d, n);
            } else {
                lemma_divides_transitive(3, d, n);
            }
        }
    }
}

/// Once the square of the next candidate exceeds what remains, what
/// remains is 1 or the last prime factor.
proof fn lemma_finish(number: nat, remaining: nat, found: Set<u64>, next: nat)
    requires
        2 <= number <= u64::MAX,
        partly_factored(number, remaining, found, next),
        next * next > remaining,
    ensures
        remaining >= 1,
        remaining > 1 ==> found.insert(remaining as u64) == distinct_prime_factors(number as u64),
        remaining == 1 ==> found == distinct_prime_factors(number as u64),
{
    lemma_divisor_bounded(remaining, number);
    if remaining > 1 {
        lemma_prime_by_trial(remaining, next);
        let all = found.insert(remaining as u64);
        assert forall|p: u64|
            prime(p as nat) && divides(p as nat, number) implies #[trigger] all.contains(p) by {
            if !found.contains(p) {
                lemma_prime_divisor_of_prime(p as nat, remaining);
            }
        }
        assert(all =~= distinct_prime_factors(number as u64));
    } else {
        assert forall|p: u64|
            prime(p as nat) && divides(p as nat, number) implies #[trigger] found.contains(p) by {
            if !found.contains(p) {
                lemma_divisor_bounded(p as nat, remaining);
            }
        }
        assert(found =~= distinct_prime_factors(number as u64));
    }
}

/// The distinct prime factors of `number`.
///
/// Numbers up to 2, and numbers that the oracle reports prime, are their
/// own single factor. Every other number is divided by 2, by 3 and by the
/// candidates `g` and `g + 2` for `g = 5, 11, 17, ...` as often as each
/// divides it, while `g * g` does not exceed what is left; what is left
/// above 1 at the end is the last factor.
///
/// The oracle is asked once, about `number` itself, unless `number <= 2`.
///
/// From 2 upwards the result is the set of the primes that divide
/// `number`, and the number is the product of these primes, each raised to
/// the number of times it divides the number. For 0 and 1 the result is
/// the number alone.
pub fn _find_prime_factors(cache: &mut PrimalityCache, number: u64) -> (factors: HashSet<u64>)
    ensures
        factors@ == distinct_prime_factors(number),
        number >= 1 ==> forall|p: u64| #[trigger]
            factors@.contains(p) ==> p != 0 && number % p == 0,
        number >= 2 ==> forall|p: u64| #[trigger] factors@.contains(p) ==> prime(p as nat),
        number >= 1 ==> power_product(number, factors@, number) == number,
        final(cache)@ == (if number <= 2 {
            old(cache)@
        } else {
            after_query(old(cache)@, number)
        }),
        consistent(final(cache)@),
{
    proof {
        use_type_invariant(&*cache);
        if number >= 1 {
            lemma_factors_rebuild_number(number);
        }
    }
    let mut factors: HashSet<u64> = HashSet::new();
    if number <= 2 || is_prime(cache, number) {
        factors.insert(number);
        proof {
            if number >= 2 {
                assert(prime(number as nat));
                assert(divides(number as nat, number as nat));
                assert forall|p: u64|
                    prime(p as nat) && divides(p as nat, number as nat) implies p == number by {
                    lemma_prime_divisor_of_prime(p as nat, number as nat);
                }
            }
            assert(factors@ =~= distinct_prime_factors(number));
        }
        return factors;
    }
    let mut remaining: u64 = number;
    proof {
        assert(divides(number as nat, number as nat));
    }
    while remaining % 2 == 0
        invariant
            number >= 1,
            partly_factored(number as nat, remaining as nat, factors@, 2),
        decreases remaining,
    {
        proof {
            lemma_divide_out(number as nat, remaining as nat, factors@, 2, 2);
        }
        factors.insert(2);
        remaining /= 2;
    }
    while remaining % 3 == 0
        invariant
            number >= 1,
            partly_factored(number as nat, remaining as nat, factors@, 3),
        decreases remaining,
    {
        proof {
            lemma_divide_out(number as nat, remaining as nat, factors@, 3, 3);
        }
        factors.insert(3);
        remaining /= 3;
    }
    proof {
        if divides(4, remaining as nat) {
            lemma_divides_transitive(2, 4, remaining as nat);
        }
    }
    let mut g: u64 = 5;
    while (g as u128) * (g as u128) <= remaining as u128
        invariant
            number >= 1,
            5 <= g <= CANDIDATE_LIMIT,
            g * g <= CANDIDATE_LIMIT * CANDIDATE_LIMIT,
            g % 6 == 5,
            partly_factored(number as nat, remaining as nat, factors@, g as nat),
        decreases CANDIDATE_LIMIT - g,
    {
        proof {
            lemma_candidate_in_range(g, remaining);
        }
        while remaining % g == 0
            invariant
                number >= 1,
                g >= 5,
                partly_factored(number as nat, remaining as nat, factors@, g as nat),
            decreases remaining,
        {
            proof {
                lemma_divide_out(number as nat, remaining as nat, factors@, g as nat, g);
            }
            factors.insert(g);
            remaining /= g;
        }
        proof {
            lemma_skip_multiples(remaining as nat, g as nat, 2);
        }
        while remaining % (g + 2) == 0
            invariant
                number >= 1,
                5 <= g < CANDIDATE_LIMIT,
                partly_factored(number as nat, remaining as nat, factors@, (g + 2) as nat),
            decreases remaining,
        {
            proof {
                lemma_divide_out(
                    number as nat,
                    remaining as nat,
                    factors@,
                    (g + 2) as nat,
                    (g + 2) as u64,
                );
            }
            factors.insert(g + 2);
            remaining /= g + 2;
        }
        proof {
            lemma_skip_multiples(remaining as nat, (g + 2) as nat, 4);
        }
        g += 6;
    }
    proof {
        lemma_finish(number as nat, remaining as nat, factors@, g as nat);
    }
    if remaining > 1 {
        factors.insert(remaining);
    }
    factors
}

} // verus!
