//! The primality oracle: trial division behind a cache of verdicts.

use crate::arithmetic::{
    divides, lemma_candidate_in_range, lemma_divides_transitive, lemma_prime_by_trial, prime,
    CANDIDATE_LIMIT,
};
use std::collections::HashMap;
use vstd::prelude::*;

verus! {

/// What the oracle answers for `n`.
///
/// From 4 upwards the verdict is primality. Below that the shortcut through
/// 2 and 3 decides: 1 is reported prime, and 0, 2 and 3 are not.
pub open spec fn oracle_verdict(n: nat) -> bool {
    n == 1 || (n > 3 && prime(n))
}

/// Decides `number` by trial division, without consulting any cache.
///
/// Divisibility by 2 and by 3 is tested first; then candidates `i` and
/// `i + 2` for `i = 5, 11, 17, ...` as long as `i * i <= number`. The
/// square is taken in 128 bits, where it cannot overflow.
pub fn is_prime_uncached(number: u64) -> (verdict: bool)
    ensures
        verdict == oracle_verdict(number as nat),
{
    if number % 2 == 0 || number % 3 == 0 {
        proof {
            if number > 3 {
                assert(divides(2, number as nat) || divides(3, number as nat));
            }
        }
        return false;
    }
    let mut i: u64 = 5;
    proof {
        assert forall|d: nat| 2 <= d < 5 implies !#[trigger] divides(d, number as nat) by {
            if divides(d, number as nat) && d == 4 {
                lemma_divides_transitive(2, 4, number as nat);
            }
        }
    }
    while (i as u128) * (i as u128) <= number as u128
        invariant
            number % 2 != 0,
            number % 3 != 0,
            5 <= i <= CANDIDATE_LIMIT,
            i * i <= CANDIDATE_LIMIT * CANDIDATE_LIMIT,
            i % 6 == 5,
            forall|d: nat| 2 <= d < i ==> !#[trigger] divides(d, number as nat),
        decreases CANDIDATE_LIMIT - i,
    {
        proof {
            lemma_candidate_in_range(i, number);
        }
        if number % i == 0 || number % (i + 2) == 0 {
            proof {
                assert(divides(i as nat, number as nat) || divides((i + 2) as nat, number as nat));
            }
            return false;
        }
        proof {
            assert forall|d: nat| i <= d < i + 6 implies !#[trigger] divides(d, number as nat) by {
                if divides(d, number as nat) {
                    if d % 2 == 0 {
                        lemma_divides_transitive(2, d, number as nat);
                    } else if d % 3 == 0 {
                        lemma_divides_transitive(3, d, number as nat);
                    }
                }
            }
        }
        i += 6;
    }
    proof {
        if number != 1 {
            lemma_prime_by_trial(number as nat, i as nat);
        }
    }
    true
}

/// What a cache of verdicts answers for `n`: the entry if there is one, the
/// oracle's own verdict otherwise.
pub open spec fn answer(cache: Map<u64, bool>, n: u64) -> bool {
    if cache.contains_key(n) {
        cache[n]
    } else {
        oracle_verdict(n as nat)
    }
}

/// The cache after a query for `n`: the answer is on record.
pub open spec fn after_query(cache: Map<u64, bool>, n: u64) -> Map<u64, bool> {
    cache.insert(n, answer(cache, n))
}

/// Every entry is the oracle's verdict for its key.
pub open spec fn consistent(cache: Map<u64, bool>) -> bool {
    forall|n: u64| #[trigger] cache.contains_key(n) ==> cache[n] == oracle_verdict(n as nat)
}

/// The verdicts given so far, by number. Entries are added on first query
/// and never removed or changed.
pub struct PrimalityCache {
    entries: HashMap<u64, bool>,
}

impl View for PrimalityCache {
    type V = Map<u64, bool>;

    closed spec fn view(&self) -> Map<u64, bool> {
        self.entries@
    }
}

impl PrimalityCache {
    /// What holds of every cache: no entry is stale or wrong.
    #[verifier::type_invariant]
    pub open spec fn entries_consistent(self) -> bool {
        consistent(self@)
    }

    /// An empty cache.
    pub fn new() -> (cache: Self)
        ensures
            cache@ == Map::<u64, bool>::empty(),
    {
        PrimalityCache { entries: HashMap::new() }
    }

    /// The number of verdicts on record.
    pub fn len(&self) -> (count: usize)
        ensures
            count == self@.len(),
    {
        self.entries.len()
    }

    /// The verdict on record for `number`, if there is one.
    pub fn cached(&self, number: u64) -> (entry: Option<bool>)
        ensures
            entry == (if self@.contains_key(number) {
                Some(self@[number])
            } else {
                None
            }),
            entry matches Some(verdict) ==> verdict == oracle_verdict(number as nat),
            consistent(self@),
    {
        proof {
            use_type_invariant(self);
        }
        match self.entries.get(&number) {
            Some(verdict) => Some(*verdict),
            None => None,
        }
    }

    /// Puts the oracle's verdict for `number` on record.
    fn record(&mut self, number: u64, verdict: bool)
        requires
            verdict == oracle_verdict(number as nat),
        ensures
            final(self)@ == old(self)@.insert(number, verdict),
    {
        proof {
            use_type_invariant(&*self);
        }
        // The map leaves the cache while it grows, so that the cache holds
        // a consistent map at every moment.
        let mut entries: HashMap<u64, bool> = HashMap::new();
        std::mem::swap(&mut self.entries, &mut entries);
        entries.insert(number, verdict);
        std::mem::swap(&mut self.entries, &mut entries);
    }
}

/// Whether `number` is prime in the oracle's sense, from the cache where it
/// has been asked before.
///
/// The first query for a number decides it by trial division and records
/// the verdict; later ones return the record. No other entry changes.
pub fn is_prime(cache: &mut PrimalityCache, number: u64) -> (verdict: bool)
    ensures
        verdict == oracle_verdict(number as nat),
        verdict == answer(old(cache)@, number),
        final(cache)@ == after_query(old(cache)@, number),
        consistent(final(cache)@),
{
    proof {
        use_type_invariant(&*cache);
    }
    if let Some(known) = cache.cached(number) {
        assert(cache@ =~= after_query(cache@, number));
        return known;
    }
    let verdict = is_prime_uncached(number);
    cache.record(number, verdict);
    verdict
}

/// Asking twice is asking once: a second query for the same number gets
/// the answer that the first one got and leaves the cache as the first one
/// left it. A query removes no entry and changes none, and adds none but
/// the one for its own number.
pub proof fn lemma_query_repeatable(cache: Map<u64, bool>, n: u64)
    ensures
        answer(after_query(cache, n), n) == answer(cache, n),
        after_query(after_query(cache, n), n) == after_query(cache, n),
        forall|m: u64| #[trigger]
            cache.contains_key(m) ==> after_query(cache, n).contains_key(m) && after_query(
                cache,
                n,
            )[m] == cache[m],
        forall|m: u64| #[trigger]
            after_query(cache, n).contains_key(m) ==> m == n || cache.contains_key(m),
{
    assert(after_query(after_query(cache, n), n) =~= after_query(cache, n));
}

/// The cache changes how fast an answer comes, never the answer: a
/// consistent cache answers as the oracle would without it, and is
/// consistent after the query too.
pub proof fn lemma_cache_transparent(cache: Map<u64, bool>, n: u64)
    requires
        consistent(cache),
    ensures
        answer(cache, n) == oracle_verdict(n as nat),
        consistent(after_query(cache, n)),
{
}

/// The numbers whose verdicts are put on record ahead of first use.
pub open spec fn low_primes() -> Seq<u64> {
    seq![0, 1, 2, 3, 5, 7, 11, 13, 17, 19, 23, 29, 31]
}

/// The cache after warming: every entry it had, and the answers for the low
/// primes.
pub open spec fn warmed(cache: Map<u64, bool>) -> Map<u64, bool> {
    Map::new(
        |n: u64| cache.contains_key(n) || low_primes().contains(n),
        |n: u64| answer(cache, n),
    )
}

/// Asks the oracle about each of the low primes, so that their verdicts are
/// on record before the first real query. Only the cache changes.
pub fn memorize_low_primes(cache: &mut PrimalityCache)
    ensures
        final(cache)@ == warmed(old(cache)@),
        consistent(final(cache)@),
{
    proof {
        use_type_invariant(&*cache);
    }
    let ghost before = cache@;
    let seeds: [u64; 13] = [0, 1, 2, 3, 5, 7, 11, 13, 17, 19, 23, 29, 31];
    assert(seeds@ =~= low_primes());
    let mut i: usize = 0;
    while i < 13
        invariant
            i <= 13,
            seeds@ == low_primes(),
            consistent(before),
            consistent(cache@),
            forall|n: u64| #[trigger]
                cache@.contains_key(n) <==> before.contains_key(n) || seeds@.take(
                    i as int,
                ).contains(n),
        decreases 13 - i,
    {
        let ghost asked = seeds@.take(i as int);
        let ghost recorded = cache@;
        let seed: u64 = seeds[i];
        is_prime(cache, seed);
        i += 1;
        proof {
            let asked_now = seeds@.take(i as int);
            assert(asked_now =~= asked.push(seed));
            assert forall|n: u64| #[trigger]
                cache@.contains_key(n) <==> before.contains_key(n) || asked_now.contains(n) by {
                assert(cache@.contains_key(n) <==> recorded.contains_key(n) || n == seed);
                if asked.contains(n) {
                    let j = choose|j: int| 0 <= j < asked.len() && asked[j] == n;
                    assert(asked_now[j] == n);
                }
                if n == seed {
                    assert(asked_now[i - 1] == n);
                }
            }
        }
    }
    assert(seeds@.take(13) =~= low_primes());
    assert(cache@ =~= warmed(before));
}

} // verus!
