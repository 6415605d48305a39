use find_primes::{_find_prime_factors, is_prime, memorize_low_primes, PrimalityCache};
use std::collections::HashSet;

fn factors_of(number: u64) -> HashSet<u64> {
    let mut cache = PrimalityCache::new();
    _find_prime_factors(&mut cache, number)
}

fn naive_prime_factors(n: u64) -> HashSet<u64> {
    let mut found = HashSet::new();
    let mut left = n;
    let mut d: u64 = 2;
    while d * d <= left {
        while left % d == 0 {
            found.insert(d);
            left /= d;
        }
        d += 1;
    }
    if left > 1 {
        found.insert(left);
    }
    found
}

#[test]
fn factors_of_243() {
    assert_eq!(factors_of(243), HashSet::from([3]));
}

#[test]
fn factors_of_2() {
    assert_eq!(factors_of(2), HashSet::from([2]));
}

#[test]
fn factors_of_1() {
    assert_eq!(factors_of(1), HashSet::from([1]));
}

#[test]
fn factors_of_0() {
    assert_eq!(factors_of(0), HashSet::from([0]));
}

#[test]
fn factors_of_360() {
    assert_eq!(factors_of(360), HashSet::from([2, 3, 5]));
}

#[test]
fn factors_of_97() {
    assert_eq!(factors_of(97), HashSet::from([97]));
}

#[test]
fn factors_of_3_come_from_trial_division() {
    let mut cache = PrimalityCache::new();
    assert_eq!(_find_prime_factors(&mut cache, 3), HashSet::from([3]));
    assert_eq!(cache.cached(3), Some(false));
}

#[test]
fn factors_of_small_numbers() {
    assert_eq!(factors_of(4), HashSet::from([2]));
    assert_eq!(factors_of(5), HashSet::from([5]));
    assert_eq!(factors_of(6), HashSet::from([2, 3]));
    assert_eq!(factors_of(7), HashSet::from([7]));
    assert_eq!(factors_of(8), HashSet::from([2]));
    assert_eq!(factors_of(9), HashSet::from([3]));
    assert_eq!(factors_of(10), HashSet::from([2, 5]));
    assert_eq!(factors_of(25), HashSet::from([5]));
    assert_eq!(factors_of(35), HashSet::from([5, 7]));
    assert_eq!(factors_of(49), HashSet::from([7]));
    assert_eq!(factors_of(77), HashSet::from([7, 11]));
    assert_eq!(factors_of(1001), HashSet::from([7, 11, 13]));
}

#[test]
fn factors_match_plain_trial_division_up_to_ten_thousand() {
    let mut cache = PrimalityCache::new();
    for n in 2..=10_000u64 {
        assert_eq!(_find_prime_factors(&mut cache, n), naive_prime_factors(n), "n = {}", n);
    }
}

#[test]
fn prime_powers_rebuild_the_number() {
    let mut cache = PrimalityCache::new();
    for n in 2..=10_000u64 {
        let factors = _find_prime_factors(&mut cache, n);
        let mut product: u64 = 1;
        for p in factors.iter() {
            let mut left = n;
            while left % p == 0 {
                left /= p;
                product *= p;
            }
        }
        assert_eq!(product, n, "n = {}", n);
    }
}

#[test]
fn every_factor_divides_the_number() {
    let mut cache = PrimalityCache::new();
    for n in 2..=10_000u64 {
        let factors = _find_prime_factors(&mut cache, n);
        assert!(!factors.is_empty(), "n = {}", n);
        for p in factors.iter() {
            assert!(*p >= 2, "n = {}, p = {}", n, p);
            assert_eq!(n % p, 0, "n = {}, p = {}", n, p);
        }
    }
}

#[test]
fn every_factor_is_prime() {
    let mut cache = PrimalityCache::new();
    for n in 2..=10_000u64 {
        for p in _find_prime_factors(&mut cache, n).iter() {
            assert_eq!(naive_prime_factors(*p), HashSet::from([*p]), "n = {}, p = {}", n, p);
        }
    }
}

#[test]
fn factors_of_the_largest_number() {
    assert_eq!(
        factors_of(u64::MAX),
        HashSet::from([3, 5, 17, 257, 641, 65_537, 6_700_417])
    );
}

#[test]
fn factors_of_the_largest_even_number() {
    assert_eq!(
        factors_of(u64::MAX - 1),
        HashSet::from([2, 7, 73, 127, 337, 92_737, 649_657])
    );
}

#[test]
fn factors_of_the_largest_power_of_two() {
    assert_eq!(factors_of(1 << 63), HashSet::from([2]));
}

#[test]
fn factors_of_large_numbers() {
    assert_eq!(factors_of(999_983 * 1_000_003), HashSet::from([999_983, 1_000_003]));
    assert_eq!(factors_of(600_851_475_143), HashSet::from([71, 839, 1471, 6857]));
    assert_eq!(factors_of(4_294_967_297), HashSet::from([641, 6_700_417]));
    assert_eq!(factors_of(999_999_999_989), HashSet::from([999_999_999_989]));
    assert_eq!(
        factors_of(1_236_789_689_135),
        HashSet::from([5, 7, 11, 13, 17, 19, 23, 29, 31, 37])
    );
}

#[test]
fn numbers_up_to_two_leave_the_cache_alone() {
    let mut cache = PrimalityCache::new();
    _find_prime_factors(&mut cache, 0);
    _find_prime_factors(&mut cache, 1);
    _find_prime_factors(&mut cache, 2);
    assert_eq!(cache.len(), 0);
}

#[test]
fn the_oracle_is_asked_about_the_number_alone() {
    let mut cache = PrimalityCache::new();
    _find_prime_factors(&mut cache, 360);
    assert_eq!(cache.len(), 1);
    assert_eq!(cache.cached(360), Some(false));
    _find_prime_factors(&mut cache, 97);
    assert_eq!(cache.len(), 2);
    assert_eq!(cache.cached(97), Some(true));
    _find_prime_factors(&mut cache, 360);
    assert_eq!(cache.len(), 2);
}

#[test]
fn factors_do_not_depend_on_the_cache() {
    let mut cold = PrimalityCache::new();
    let mut warm = PrimalityCache::new();
    memorize_low_primes(&mut warm);
    for n in 0..=500u64 {
        is_prime(&mut warm, n);
    }
    for n in 0..=500u64 {
        assert_eq!(
            _find_prime_factors(&mut cold, n),
            _find_prime_factors(&mut warm, n),
            "n = {}",
            n
        );
    }
}

#[test]
fn factoring_twice_gives_the_same_set() {
    let mut cache = PrimalityCache::new();
    for n in [0u64, 1, 2, 3, 97, 243, 360, 10_007, 600_851_475_143] {
        let first = _find_prime_factors(&mut cache, n);
        let second = _find_prime_factors(&mut cache, n);
        assert_eq!(first, second, "n = {}", n);
    }
}
