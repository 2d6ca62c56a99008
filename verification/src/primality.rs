//! Divisibility, primality, and the list of the primes up to a bound.

use vstd::prelude::*;
use vstd::arithmetic::div_mod::{
    lemma_fundamental_div_mod,
    lemma_mod_multiples_basic,
    lemma_mod_multiples_vanish,
};

verus! {

/// `d` divides `m` evenly.
pub open spec fn divides(d: int, m: int) -> bool {
    m % d == 0
}

/// `v` is at least 2 and nothing from 2 to `v - 1` divides it.
pub open spec fn is_prime(v: int) -> bool {
    &&& 2 <= v
    &&& forall|d: int| 2 <= d < v ==> !#[trigger] divides(d, v)
}

/// `m` is at least 2 and nothing from 2 on that is below both `bound` and
/// `m` divides it: `m` has survived sifting by every candidate below `bound`.
pub open spec fn sifted(m: int, bound: int) -> bool {
    &&& 2 <= m
    &&& forall|d: int| 2 <= d < bound && d < m ==> !#[trigger] divides(d, m)
}

/// The primes from 2 to `n`, in increasing order.
pub open spec fn primes_up_to(n: int) -> Seq<int>
    decreases n,
{
    if n < 2 {
        Seq::empty()
    } else if is_prime(n) {
        primes_up_to(n - 1).push(n)
    } else {
        primes_up_to(n - 1)
    }
}

/// The numbers that a list of machine integers holds.
pub open spec fn values(s: Seq<u64>) -> Seq<int> {
    Seq::new(s.len(), |k: int| s[k] as int)
}

/// Each element is smaller than every later one.
pub open spec fn strictly_increasing(s: Seq<int>) -> bool {
    forall|i: int, j: int| 0 <= i < j < s.len() ==> s[i] < s[j]
}

/// A divisor of a positive number has a cofactor, which divides that number
/// too.
pub proof fn lemma_cofactor(d: int, m: int)
    requires
        1 <= d,
        1 <= m,
        divides(d, m),
    ensures
        1 <= m / d,
        d * (m / d) == m,
        divides(m / d, m),
{
    let k = m / d;
    lemma_fundamental_div_mod(m, d);
    assert(m == d * k);
    assert(1 <= k) by (nonlinear_arith)
        requires
            m == d * k,
            1 <= m,
            1 <= d,
    ;
    lemma_mod_multiples_basic(d, k);
    assert(d * k == k * d) by (nonlinear_arith);
}

/// A divisor of a divisor is a divisor.
pub proof fn lemma_divides_transitive(a: int, b: int, c: int)
    requires
        1 <= a,
        1 <= b,
        1 <= c,
        divides(a, b),
        divides(b, c),
    ensures
        divides(a, c),
{
    lemma_cofactor(a, b);
    lemma_cofactor(b, c);
    let k = b / a;
    let l = c / b;
    assert(c == (l * k) * a) by (nonlinear_arith)
        requires
            a * k == b,
            b * l == c,
    ;
    lemma_mod_multiples_basic(l * k, a);
}

/// Subtracting a multiple of `d` does not change whether `d` divides.
pub proof fn lemma_divides_offset(d: int, base: int, m: int)
    requires
        1 <= d,
        divides(d, base),
    ensures
        divides(d, m - base) == divides(d, m),
{
    let k = base / d;
    lemma_fundamental_div_mod(base, d);
    assert(base == d * k);
    lemma_mod_multiples_vanish(-k, m, d);
    assert(d * (-k) + m == m - base) by (nonlinear_arith)
        requires
            base == d * k,
    ;
}

/// A number is prime exactly when it has survived sifting by everything
/// below itself.
pub proof fn lemma_sifted_by_all(m: int, bound: int)
    requires
        m <= bound,
    ensures
        sifted(m, bound) == is_prime(m),
{
}

/// What sifting by one more candidate `i` removes: the multiples of `i`
/// beyond `i`.
pub proof fn lemma_sifted_next(m: int, i: int)
    requires
        2 <= i,
    ensures
        sifted(m, i + 1) == (sifted(m, i) && !(i < m && divides(i, m))),
{
    if sifted(m, i) && !(i < m && divides(i, m)) {
        assert forall|d: int| 2 <= d < i + 1 && d < m implies !#[trigger] divides(d, m) by {
            if d < i {
            } else {
                assert(d == i);
            }
        }
    }
    if sifted(m, i + 1) {
        assert forall|d: int| 2 <= d < i && d < m implies !#[trigger] divides(d, m) by {
            assert(d < i + 1);
        }
        if i < m {
            assert(!divides(i, m));
        }
    }
}

/// A multiple of `i` that lies between `i` and `i * i` has a divisor smaller
/// than `i`, so sifting below `i` has removed it already.
pub proof fn lemma_small_multiple_gone(m: int, i: int)
    requires
        2 <= i,
        i < m < i * i,
        divides(i, m),
    ensures
        !sifted(m, i),
{
    lemma_cofactor(i, m);
    let k = m / i;
    assert(2 <= k < i) by (nonlinear_arith)
        requires
            i * k == m,
            i < m < i * i,
            2 <= i,
            1 <= k,
    ;
    assert(k < m) by (nonlinear_arith)
        requires
            i * k == m,
            2 <= i,
            1 <= k,
    ;
    assert(divides(k, m));
}

/// Clearing the multiples of `i` from `start` on, where `start` is a multiple
/// of `i` beyond `i` and not beyond `i * i`, is sifting by `i`.
pub proof fn lemma_sift_from(m: int, i: int, start: int)
    requires
        2 <= i,
        divides(i, start),
        i < start <= i * i,
    ensures
        sifted(m, i + 1) == (sifted(m, i) && !(start <= m && divides(i, m - start))),
{
    lemma_sifted_next(m, i);
    lemma_divides_offset(i, start, m);
    if i < m < start && divides(i, m) {
        lemma_small_multiple_gone(m, i);
    }
}

/// A candidate that is not prime removes nothing: each of its multiples is a
/// multiple of one of its divisors.
pub proof fn lemma_sift_by_composite(m: int, i: int)
    requires
        2 <= i,
        !is_prime(i),
    ensures
        sifted(m, i + 1) == sifted(m, i),
{
    lemma_sifted_next(m, i);
    if sifted(m, i) && i < m && divides(i, m) {
        let d = choose|d: int| 2 <= d < i && #[trigger] divides(d, i);
        lemma_divides_transitive(d, i, m);
        assert(divides(d, m));
    }
}

/// A number that has no divisor below `bound`, and is smaller than the
/// square of `bound`, is prime: of two cofactors one is below `bound`.
pub proof fn lemma_sifted_past_root(m: int, bound: int)
    requires
        0 <= bound,
        m < bound * bound,
    ensures
        sifted(m, bound) == is_prime(m),
{
    if sifted(m, bound) {
        assert forall|d: int| 2 <= d < m implies !#[trigger] divides(d, m) by {
            if divides(d, m) {
                if d < bound {
                } else {
                    lemma_cofactor(d, m);
                    let e = m / d;
                    assert(2 <= e < m) by (nonlinear_arith)
                        requires
                            d * e == m,
                            2 <= d < m,
                            1 <= e,
                    ;
                    assert(e < bound) by (nonlinear_arith)
                        requires
                            d * e == m,
                            0 <= bound <= d,
                            m < bound * bound,
                            1 <= e,
                    {
                        if e >= bound {
                            assert(d * e >= bound * bound);
                        }
                    }
                    assert(divides(e, m));
                }
            }
        }
    }
}

/// Every entry of the list of primes up to `n` is a prime from 2 to `n`.
pub proof fn lemma_primes_up_to_sound(n: int)
    ensures
        forall|k: int|
            0 <= k < primes_up_to(n).len() ==> 2 <= #[trigger] primes_up_to(n)[k] <= n
                && is_prime(primes_up_to(n)[k]),
    decreases n,
{
    if n >= 2 {
        lemma_primes_up_to_sound(n - 1);
        let prev = primes_up_to(n - 1);
        let cur = primes_up_to(n);
        assert forall|k: int| 0 <= k < cur.len() implies 2 <= #[trigger] cur[k] <= n && is_prime(
            cur[k],
        ) by {
            if k < prev.len() {
                assert(cur[k] == prev[k]);
            }
        }
    }
}

/// The list of primes up to `n` is strictly increasing.
pub proof fn lemma_primes_up_to_increasing(n: int)
    ensures
        strictly_increasing(primes_up_to(n)),
    decreases n,
{
    if n >= 2 {
        lemma_primes_up_to_increasing(n - 1);
        lemma_primes_up_to_sound(n - 1);
    }
}

/// The list of primes up to `n` misses no prime from 2 to `n`.
pub proof fn lemma_primes_up_to_complete(n: int)
    ensures
        forall|p: int| 2 <= p <= n && is_prime(p) ==> primes_up_to(n).contains(p),
    decreases n,
{
    if n >= 2 {
        lemma_primes_up_to_complete(n - 1);
        let prev = primes_up_to(n - 1);
        let cur = primes_up_to(n);
        assert forall|p: int| 2 <= p <= n && is_prime(p) implies cur.contains(p) by {
            if p == n {
                assert(cur[cur.len() - 1] == n);
            } else {
                let k = choose|k: int| 0 <= k < prev.len() && prev[k] == p;
                assert(cur[k] == p);
            }
        }
    }
}

/// `s` holds the primes from 2 to `n` and nothing else, each once, in
/// increasing order.
pub open spec fn lists_primes_up_to(s: Seq<int>, n: int) -> bool {
    &&& strictly_increasing(s)
    &&& forall|k: int| 0 <= k < s.len() ==> 2 <= #[trigger] s[k] <= n && is_prime(s[k])
    &&& forall|p: int| 2 <= p <= n && is_prime(p) ==> s.contains(p)
}

/// The list of primes up to `n` is what its name says.
pub proof fn lemma_primes_up_to_lists(n: int)
    ensures
        lists_primes_up_to(primes_up_to(n), n),
{
    lemma_primes_up_to_sound(n);
    lemma_primes_up_to_increasing(n);
    lemma_primes_up_to_complete(n);
}

/// There is one such list only: a strictly increasing list of primes from 2
/// to `n` that misses none of them is the list of primes up to `n`.
pub proof fn lemma_one_prime_list(s: Seq<int>, n: int)
    requires
        lists_primes_up_to(s, n),
    ensures
        s == primes_up_to(n),
    decreases n,
{
    if n < 2 {
        if s.len() > 0 {
            assert(2 <= s[0] <= n);
        }
        assert(s =~= primes_up_to(n));
    } else if is_prime(n) {
        let at = choose|k: int| 0 <= k < s.len() && s[k] == n;
        if at < s.len() - 1 {
            assert(s[at] < s[s.len() - 1]);
            assert(s[s.len() - 1] <= n);
        }
        let rest = s.drop_last();
        assert forall|p: int| 2 <= p <= n - 1 && is_prime(p) implies rest.contains(p) by {
            let k = choose|k: int| 0 <= k < s.len() && s[k] == p;
            assert(rest[k] == p);
        }
        assert forall|k: int| 0 <= k < rest.len() implies 2 <= #[trigger] rest[k] <= n - 1
            && is_prime(rest[k]) by {
            assert(rest[k] == s[k]);
            assert(s[k] < s[at]);
        }
        lemma_one_prime_list(rest, n - 1);
        assert(s =~= rest.push(n));
    } else {
        assert forall|k: int| 0 <= k < s.len() implies 2 <= #[trigger] s[k] <= n - 1 && is_prime(
            s[k],
        ) by {
            assert(s[k] != n);
        }
        lemma_one_prime_list(s, n - 1);
    }
}

/// Two lists of machine integers that hold the same numbers are the same
/// list.
pub proof fn lemma_values_determine(a: Seq<u64>, b: Seq<u64>)
    requires
        values(a) == values(b),
    ensures
        a == b,
{
    assert(a.len() == values(a).len());
    assert(b.len() == values(b).len());
    assert forall|k: int| 0 <= k < a.len() implies a[k] == b[k] by {
        assert(values(a)[k] == a[k] as int);
        assert(values(b)[k] == b[k] as int);
    }
    assert(a =~= b);
}

/// What holds of a list of machine integers that is the list of the primes
/// up to `n`: it is strictly increasing and so without duplicates, each entry
/// is a prime from 2 to `n`, and every number from 2 to `n` that it lacks has
/// a divisor from 2 to below itself.
pub proof fn lemma_prime_list(s: Seq<u64>, n: int)
    requires
        values(s) == primes_up_to(n),
    ensures
        strictly_increasing(values(s)),
        s.no_duplicates(),
        forall|k: int| 0 <= k < s.len() ==> 2 <= #[trigger] s[k] <= n && is_prime(s[k] as int),
        forall|m: int|
            2 <= m <= n && !values(s).contains(m) ==> exists|d: int|
                2 <= d < m && #[trigger] divides(d, m),
{
    lemma_primes_up_to_lists(n);
    assert(s.len() == values(s).len());
    assert forall|k: int| 0 <= k < s.len() implies 2 <= #[trigger] s[k] <= n && is_prime(
        s[k] as int,
    ) by {
        assert(values(s)[k] == s[k] as int);
    }
    assert forall|i: int, j: int| 0 <= i < s.len() && 0 <= j < s.len() && i != j implies s[i]
        != s[j] by {
        assert(values(s)[i] == s[i] as int);
        assert(values(s)[j] == s[j] as int);
    }
    assert forall|m: int| 2 <= m <= n && !values(s).contains(m) implies exists|d: int|
        2 <= d < m && #[trigger] divides(d, m) by {
        assert(!primes_up_to(n).contains(m));
        assert(!is_prime(m));
    }
}

} // verus!
