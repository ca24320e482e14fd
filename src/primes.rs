use vstd::prelude::*;

use vstd::arithmetic::div_mod::{
    lemma_add_mod_noop, lemma_fundamental_div_mod, lemma_mod_add_multiples_vanish,
    lemma_mod_multiples_basic, lemma_small_mod,
};

verus! {

/// `n` is a prime: at least two, with no divisor between two and itself.
pub open spec fn is_prime(n: nat) -> bool {
    n >= 2 && forall|d: nat| 2 <= d < n ==> #[trigger] (n % d) != 0
}

/// Number of primes below `n`.
pub open spec fn count_primes(n: nat) -> nat
    decreases n,
{
    if n == 0 {
        0
    } else {
        count_primes((n - 1) as nat) + if is_prime((n - 1) as nat) {
            1nat
        } else {
            0nat
        }
    }
}

/// The largest prime below `n`, zero when there is none.
pub open spec fn max_prime_below(n: nat) -> nat
    decreases n,
{
    if n == 0 {
        0
    } else if is_prime((n - 1) as nat) {
        (n - 1) as nat
    } else {
        max_prime_below((n - 1) as nat)
    }
}

/// `k` has a divisor `d` below `bound` with `d * d <= k`.
pub open spec fn small_factor_below(k: nat, bound: nat) -> bool {
    exists|d: nat| 2 <= d < bound && d * d <= k && #[trigger] (k % d) == 0
}

proof fn lemma_next_not_multiple(j: nat, k: nat, i: nat)
    requires
        i > 0,
        j % i == 0,
        j < k < j + i,
    ensures
        k % i != 0,
{
    let r = (k - j) as nat;
    lemma_add_mod_noop(j as int, r as int, i as int);
    lemma_small_mod(r, i);
}

proof fn lemma_divides_through(k: nat, i: nat, p: nat)
    requires
        i > 0,
        p > 0,
        k % i == 0,
        i % p == 0,
    ensures
        k % p == 0,
{
    lemma_fundamental_div_mod(k as int, i as int);
    lemma_fundamental_div_mod(i as int, p as int);
    let a = k / i;
    let b = i / p;
    assert(k == p * (b * a)) by (nonlinear_arith)
        requires
            k == i * a,
            i == p * b,
    ;
    lemma_mod_multiples_basic((b * a) as int, p as int);
    assert((b * a) * p == p * (b * a)) by (nonlinear_arith);
}

proof fn lemma_small_factor_exists(k: nat, d: nat)
    requires
        2 <= d < k,
        k % d == 0,
    ensures
        small_factor_below(k, k),
{
    if d * d <= k {
        assert(small_factor_below(k, k));
    } else {
        lemma_fundamental_div_mod(k as int, d as int);
        let e = k / d;
        assert(k == d * e);
        assert(e >= 2 && e < d && e * e <= k) by (nonlinear_arith)
            requires
                k == d * e,
                d * d > k,
                2 <= d < k,
        ;
        lemma_mod_multiples_basic(d as int, e as int);
        assert(d * e == e * d) by (nonlinear_arith);
        assert(k % e == 0);
    }
}

proof fn lemma_square_bound(d: nat, k: nat)
    requires
        d >= 2,
        d * d <= k,
    ensures
        d < k,
{
    assert(d < k) by (nonlinear_arith)
        requires
            d >= 2,
            d * d <= k,
    ;
}

proof fn lemma_prime_iff_no_small_factor(k: nat)
    requires
        k >= 2,
    ensures
        is_prime(k) <==> !small_factor_below(k, k + 1),
{
    if small_factor_below(k, k + 1) {
        let d = choose|d: nat| 2 <= d < k + 1 && d * d <= k && #[trigger] (k % d) == 0;
        lemma_square_bound(d, k);
        assert(!is_prime(k));
    }
    if !is_prime(k) {
        let d = choose|d: nat| 2 <= d < k && #[trigger] (k % d) != 0 == false;
        lemma_small_factor_exists(k, d);
        let e = choose|e: nat| 2 <= e < k && e * e <= k && #[trigger] (k % e) == 0;
        assert(small_factor_below(k, k + 1));
    }
}

/// Counts the primes below `limit` with the sieve of Eratosthenes, and
/// returns that count with the largest of them (zero when there is none).
pub fn primes(limit: usize) -> (r: (usize, usize))
    requires
        limit <= usize::MAX / 2,
    ensures
        r.0 == count_primes(limit as nat),
        r.1 == max_prime_below(limit as nat),
{
    let mut primes_map: Vec<bool> = vec![true; limit];
    let mut i: usize = 2;
    while i <= limit / i
        invariant
            2 <= i,
            limit <= usize::MAX / 2,
            primes_map@.len() == limit,
            i <= limit + 2,
            forall|k: int|
                2 <= k < limit ==> #[trigger] primes_map@[k] == !small_factor_below(k as nat, i as nat),
        decreases limit + 2 - i,
    {
        assert(i * i <= limit) by (nonlinear_arith)
            requires
                i <= limit / i,
                i >= 2,
        ;
        proof {
            lemma_square_bound(i as nat, limit as nat);
        }
        if primes_map[i] {
            let mut j: usize = i * i;
            proof {
                lemma_mod_multiples_basic(i as int, i as int);
            }
            let ghost before = primes_map@;
            while j < limit
                invariant
                    2 <= i,
                    i * i <= j,
                    j <= limit + i,
                    limit <= usize::MAX / 2,
                    i <= limit,
                    j % i == 0,
                    primes_map@.len() == limit,
                    before.len() == limit,
                    forall|k: int|
                        2 <= k < limit ==> #[trigger] primes_map@[k] == (before[k] && !(i * i <= k < j
                            && k % (i as int) == 0)),
                decreases limit + i - j,
            {
                primes_map.set(j, false);
                proof {
                    assert forall|k: int| 2 <= k < limit implies #[trigger] primes_map@[k] == (before[k] && !(i * i
                        <= k < j + i && k % (i as int) == 0)) by {
                        if j < k < j + i {
                            lemma_next_not_multiple(j as nat, k as nat, i as nat);
                        }
                    }
                    lemma_mod_add_multiples_vanish(j as int, i as int);
                }
                j = j + i;
            }
            proof {
                assert forall|k: int| 2 <= k < limit implies #[trigger] primes_map@[k] == !small_factor_below(
                    k as nat,
                    (i + 1) as nat,
                ) by {
                    if small_factor_below(k as nat, (i + 1) as nat) && !small_factor_below(k as nat, i as nat) {
                        let d = choose|d: nat| 2 <= d < i + 1 && d * d <= k && #[trigger] ((k as nat) % d) == 0;
                        assert(d == i);
                    }
                    if small_factor_below(k as nat, i as nat) {
                        let d = choose|d: nat| 2 <= d < i && d * d <= k && #[trigger] ((k as nat) % d) == 0;
                        assert(small_factor_below(k as nat, (i + 1) as nat));
                    }
                }
            }
        } else {
            proof {
                // i has a smaller factor p, which divides every multiple of i
                assert(small_factor_below(i as nat, i as nat));
                let p = choose|p: nat| 2 <= p < i && p * p <= i && #[trigger] ((i as nat) % p) == 0;
                assert forall|k: int| 2 <= k < limit implies #[trigger] primes_map@[k] == !small_factor_below(
                    k as nat,
                    (i + 1) as nat,
                ) by {
                    if small_factor_below(k as nat, (i + 1) as nat) && !small_factor_below(k as nat, i as nat) {
                        let d = choose|d: nat| 2 <= d < i + 1 && d * d <= k && #[trigger] ((k as nat) % d) == 0;
                        assert(d == i);
                        lemma_divides_through(k as nat, i as nat, p);
                        assert(p * p <= k) by (nonlinear_arith)
                            requires
                                p < i,
                                i * i <= k,
                        ;
                        assert(small_factor_below(k as nat, i as nat));
                    }
                    if small_factor_below(k as nat, i as nat) {
                        let d = choose|d: nat| 2 <= d < i && d * d <= k && #[trigger] ((k as nat) % d) == 0;
                        assert(small_factor_below(k as nat, (i + 1) as nat));
                    }
                }
            }
        }
        i = i + 1;
    }
    proof {
        assert forall|k: int| 2 <= k < limit implies #[trigger] primes_map@[k] == is_prime(k as nat) by {
            lemma_prime_iff_no_small_factor(k as nat);
            if small_factor_below(k as nat, (k + 1) as nat) {
                let d = choose|d: nat| 2 <= d < k + 1 && d * d <= k && #[trigger] ((k as nat) % d) == 0;
                assert(d < i) by (nonlinear_arith)
                    requires
                        d * d <= k,
                        k < limit,
                        i > limit / i,
                        i >= 2,
                ;
                assert(small_factor_below(k as nat, i as nat));
            }
            if small_factor_below(k as nat, i as nat) {
                let d = choose|d: nat| 2 <= d < i && d * d <= k && #[trigger] ((k as nat) % d) == 0;
                lemma_square_bound(d, k as nat);
                assert(small_factor_below(k as nat, (k + 1) as nat));
            }
        }
    }
    let mut count: usize = 0;
    let mut max: usize = 0;
    let mut k: usize = 0;
    while k < limit
        invariant
            k <= limit,
            primes_map@.len() == limit,
            forall|x: int| 2 <= x < limit ==> #[trigger] primes_map@[x] == is_prime(x as nat),
            count == count_primes(k as nat),
            count <= k,
            max == max_prime_below(k as nat),
        decreases limit - k,
    {
        if k >= 2 && primes_map[k] {
            count = count + 1;
            max = k;
        }
        k = k + 1;
    }
    (count, max)
}

} // verus!
