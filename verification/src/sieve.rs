//! The Sieve of Eratosthenes in four variants.
//!
//! Each takes a bound and returns the primes up to it in increasing order.
//! They differ in the work they do: which candidates they sift by, where the
//! clearing of a candidate's multiples begins, and how the marker array is
//! set up.

use vstd::prelude::*;
use crate::isqrt::{is_floor_sqrt, lemma_floor_sqrt_range, sqrt};
use crate::markers::{
    collect_marked,
    eliminate_multiples,
    fresh_markers,
    marked_between,
    odd_candidates,
    packed_markers,
    stride_cleared,
    unsifted,
};
use crate::primality::{
    divides,
    is_prime,
    lemma_prime_list,
    lemma_sift_by_composite,
    lemma_sift_from,
    lemma_sifted_by_all,
    lemma_sifted_past_root,
    lemma_values_determine,
    primes_up_to,
    sifted,
    strictly_increasing,
    values,
};

verus! {

/// The marker array of length `len` once every candidate below `bound` has
/// been handled.
spec fn sifted_markers(len: nat, bound: int) -> Seq<bool> {
    Seq::new(len, |m: int| sifted(m, bound))
}

/// Before any sifting, nothing below 2 has been handled.
proof fn lemma_unsifted_start(n: int)
    requires
        0 <= n,
    ensures
        unsifted(n) == sifted_markers((n + 1) as nat, 2),
{
    assert(unsifted(n) =~= sifted_markers((n + 1) as nat, 2));
}

/// Leaving the even numbers beyond 2 out is sifting by 2.
proof fn lemma_odd_candidates_start(n: int)
    requires
        0 <= n,
    ensures
        odd_candidates(n) == sifted_markers((n + 1) as nat, 3),
{
    assert forall|m: int| 0 <= m <= n implies (m == 2 || (3 <= m && m % 2 == 1)) == sifted(
        m,
        3,
    ) by {
        if 3 <= m {
            assert(divides(2, m) == (m % 2 == 0));
        }
    }
    assert(odd_candidates(n) =~= sifted_markers((n + 1) as nat, 3));
}

/// Handling candidate `i`: its flag tells whether it is prime, and clearing
/// its multiples from `start` on where it is, or nothing where it is not,
/// leaves the array sifted by one candidate more.
proof fn lemma_candidate_handled(before: Seq<bool>, after: Seq<bool>, i: int, start: int)
    requires
        2 <= i < before.len(),
        before == sifted_markers(before.len(), i),
        divides(i, start),
        i < start <= i * i,
        after == (if before[i] {
            stride_cleared(before, start, i)
        } else {
            before
        }),
    ensures
        before[i] == is_prime(i),
        after == sifted_markers(before.len(), i + 1),
{
    lemma_sifted_by_all(i, i);
    assert forall|m: int| 0 <= m < before.len() implies after[m] == sifted(m, i + 1) by {
        if before[i] {
            lemma_sift_from(m, i, start);
        } else {
            lemma_sift_by_composite(m, i);
        }
    }
    assert(after =~= sifted_markers(before.len(), i + 1));
}

/// An even candidate beyond 2 needs no handling.
proof fn lemma_even_candidate_skipped(len: nat, i: int)
    requires
        4 <= i,
        i % 2 == 0,
    ensures
        !is_prime(i),
        sifted_markers(len, i + 1) == sifted_markers(len, i),
{
    assert(divides(2, i));
    assert forall|m: int| 0 <= m < len implies sifted(m, i + 1) == sifted(m, i) by {
        lemma_sift_by_composite(m, i);
    }
    assert(sifted_markers(len, i + 1) =~= sifted_markers(len, i));
}

/// Appending candidate `i` where it is prime extends the list of primes by
/// one bound.
proof fn lemma_candidate_listed(before: Seq<u64>, after: Seq<u64>, i: int)
    requires
        2 <= i <= u64::MAX,
        values(before) == primes_up_to(i - 1),
        after == (if is_prime(i) {
            before.push(i as u64)
        } else {
            before
        }),
    ensures
        values(after) == primes_up_to(i),
{
    if is_prime(i) {
        assert(values(after) =~= values(before).push(i));
    }
}

/// Once the candidates below `bound` are handled and the square of `bound`
/// is beyond the last position, the flags from `from` on are those of the
/// primes, and reading them off completes the list.
proof fn lemma_tail_completes(marks: Seq<bool>, bound: int, from: int)
    requires
        1 <= from <= marks.len(),
        0 <= bound,
        marks.len() <= bound * bound,
        marks == sifted_markers(marks.len(), bound),
    ensures
        primes_up_to(from - 1) + marked_between(marks, from, marks.len() as int) == primes_up_to(
            marks.len() - 1,
        ),
{
    assert forall|m: int| from <= m < marks.len() implies marks[m] == is_prime(m) by {
        lemma_sifted_past_root(m, bound);
    }
    lemma_marked_are_primes(marks, from, marks.len() as int);
}

/// Where the flags from `from` to `to - 1` tell which positions are prime,
/// the set positions continue the list of primes.
proof fn lemma_marked_are_primes(marks: Seq<bool>, from: int, to: int)
    requires
        1 <= from <= to <= marks.len(),
        forall|m: int| from <= m < to ==> marks[m] == is_prime(m),
    ensures
        primes_up_to(from - 1) + marked_between(marks, from, to) == primes_up_to(to - 1),
    decreases to - from,
{
    if from < to {
        lemma_marked_are_primes(marks, from, to - 1);
        assert(primes_up_to(from - 1) + marked_between(marks, from, to) =~= primes_up_to(to - 1));
    } else {
        assert(primes_up_to(from - 1) + marked_between(marks, from, to) =~= primes_up_to(to - 1));
    }
}

/// The four sieves agree: lists that meet the contracts of the four for one
/// bound are one and the same list.
pub proof fn lemma_variants_agree(
    n: u64,
    first: Seq<u64>,
    second: Seq<u64>,
    third: Seq<u64>,
    fourth: Seq<u64>,
)
    requires
        values(first) == primes_up_to(n as int),
        values(second) == primes_up_to(n as int),
        values(third) == primes_up_to(n as int),
        values(fourth) == primes_up_to(n as int),
    ensures
        first == second,
        second == third,
        third == fourth,
{
    lemma_values_determine(first, second);
    lemma_values_determine(second, third);
    lemma_values_determine(third, fourth);
}

/// A sieve keeps no state: what it returns for a bound once, it returns for
/// that bound again.
pub proof fn lemma_repeatable(n: u64, once: Seq<u64>, again: Seq<u64>)
    requires
        values(once) == primes_up_to(n as int),
        values(again) == primes_up_to(n as int),
    ensures
        once == again,
{
    lemma_values_determine(once, again);
}

/// The primes up to `n` by the textbook sieve.
///
/// Every candidate from 2 to `n` is visited in turn. One whose flag is still
/// set is prime: it is appended, and the flags of its multiples from twice
/// itself on are cleared.
pub fn sieve_001(n: u64) -> (primes: Vec<u64>)
    requires
        n < usize::MAX,
    ensures
        values(primes@) == primes_up_to(n as int),
        strictly_increasing(values(primes@)),
        primes@.no_duplicates(),
        forall|k: int|
            0 <= k < primes@.len() ==> 2 <= #[trigger] primes@[k] <= n && is_prime(
                primes@[k] as int,
            ),
        forall|m: int|
            2 <= m <= n && !values(primes@).contains(m) ==> exists|d: int|
                2 <= d < m && #[trigger] divides(d, m),
{
    let mut primes: Vec<u64> = Vec::new();
    if n < 2 {
        proof {
            assert(values(primes@) =~= primes_up_to(n as int));
            lemma_prime_list(primes@, n as int);
        }
        return primes;
    }
    let top: usize = n as usize;
    let mut markers = fresh_markers(n);
    proof {
        lemma_unsifted_start(n as int);
        assert(values(primes@) =~= primes_up_to(1));
    }
    let mut i: usize = 2;
    while i <= top
        invariant
            top == n,
            n < usize::MAX,
            2 <= i <= top + 1,
            markers@ == sifted_markers((top + 1) as nat, i as int),
            values(primes@) == primes_up_to(i - 1),
        decreases top + 1 - i,
    {
        let ghost marks = markers@;
        let ghost listed = primes@;
        proof {
            assert(divides(i as int, i + i)) by (nonlinear_arith)
                requires
                    2 <= i,
            ;
            assert(i + i <= i * i) by (nonlinear_arith)
                requires
                    2 <= i,
            ;
        }
        if markers[i] {
            primes.push(i as u64);
            if i <= top - i {
                eliminate_multiples(&mut markers, i + i, i);
            } else {
                assert(markers@ =~= stride_cleared(marks, i + i, i as int));
            }
        }
        proof {
            lemma_candidate_handled(marks, markers@, i as int, i + i);
            lemma_candidate_listed(listed, primes@, i as int);
        }
        i += 1;
    }
    proof {
        lemma_prime_list(primes@, n as int);
    }
    primes
}

/// The primes up to `n` by a sieve that sifts only by the candidates up to
/// the square root of `n`.
///
/// A number up to `n` that is not prime has a divisor whose square does not
/// exceed `n`. So the candidates from 2 to the root are handled as in the
/// textbook sieve, and the flags beyond the root are then read off as they
/// stand.
pub fn sieve_002(n: u64) -> (primes: Vec<u64>)
    requires
        n < usize::MAX,
    ensures
        values(primes@) == primes_up_to(n as int),
        strictly_increasing(values(primes@)),
        primes@.no_duplicates(),
        forall|k: int|
            0 <= k < primes@.len() ==> 2 <= #[trigger] primes@[k] <= n && is_prime(
                primes@[k] as int,
            ),
        forall|m: int|
            2 <= m <= n && !values(primes@).contains(m) ==> exists|d: int|
                2 <= d < m && #[trigger] divides(d, m),
{
    let mut primes: Vec<u64> = Vec::new();
    if n < 2 {
        proof {
            assert(values(primes@) =~= primes_up_to(n as int));
            lemma_prime_list(primes@, n as int);
        }
        return primes;
    }
    let top: usize = n as usize;
    let exact_root: u64 = sqrt(n);
    proof {
        lemma_floor_sqrt_range(n as int, exact_root as int);
    }
    let root: usize = exact_root as usize;
    let mut markers = fresh_markers(n);
    proof {
        lemma_unsifted_start(n as int);
        assert(values(primes@) =~= primes_up_to(1));
    }
    let mut i: usize = 2;
    while i <= root
        invariant
            top == n,
            n < usize::MAX,
            is_floor_sqrt(n as int, root as int),
            2 <= i <= root + 1,
            markers@ == sifted_markers((top + 1) as nat, i as int),
            values(primes@) == primes_up_to(i - 1),
        decreases root + 1 - i,
    {
        let ghost marks = markers@;
        let ghost listed = primes@;
        proof {
            assert(divides(i as int, i + i)) by (nonlinear_arith)
                requires
                    2 <= i,
            ;
            assert(i + i <= i * i <= root * root) by (nonlinear_arith)
                requires
                    2 <= i <= root,
            ;
        }
        if markers[i] {
            primes.push(i as u64);
            eliminate_multiples(&mut markers, i + i, i);
        }
        proof {
            lemma_candidate_handled(marks, markers@, i as int, i + i);
            lemma_candidate_listed(listed, primes@, i as int);
        }
        i += 1;
    }
    collect_marked(&markers, root + 1, &mut primes);
    proof {
        lemma_tail_completes(markers@, root + 1, root + 1);
        lemma_prime_list(primes@, n as int);
    }
    primes
}

/// The primes up to `n` by a sieve that sifts by the candidates up to the
/// square root of `n` and clears the multiples of each from its square on.
///
/// The multiples of a candidate below its square have a smaller divisor, and
/// were cleared when that one was handled.
pub fn sieve_003(n: u64) -> (primes: Vec<u64>)
    requires
        n < usize::MAX,
    ensures
        values(primes@) == primes_up_to(n as int),
        strictly_increasing(values(primes@)),
        primes@.no_duplicates(),
        forall|k: int|
            0 <= k < primes@.len() ==> 2 <= #[trigger] primes@[k] <= n && is_prime(
                primes@[k] as int,
            ),
        forall|m: int|
            2 <= m <= n && !values(primes@).contains(m) ==> exists|d: int|
                2 <= d < m && #[trigger] divides(d, m),
{
    let mut primes: Vec<u64> = Vec::new();
    if n < 2 {
        proof {
            assert(values(primes@) =~= primes_up_to(n as int));
            lemma_prime_list(primes@, n as int);
        }
        return primes;
    }
    let top: usize = n as usize;
    let exact_root: u64 = sqrt(n);
    proof {
        lemma_floor_sqrt_range(n as int, exact_root as int);
    }
    let root: usize = exact_root as usize;
    let mut markers = fresh_markers(n);
    proof {
        lemma_unsifted_start(n as int);
        assert(values(primes@) =~= primes_up_to(1));
    }
    let mut i: usize = 2;
    while i <= root
        invariant
            top == n,
            n < usize::MAX,
            is_floor_sqrt(n as int, root as int),
            2 <= i <= root + 1,
            markers@ == sifted_markers((top + 1) as nat, i as int),
            values(primes@) == primes_up_to(i - 1),
        decreases root + 1 - i,
    {
        let ghost marks = markers@;
        let ghost listed = primes@;
        proof {
            assert(divides(i as int, i * i)) by (nonlinear_arith)
                requires
                    2 <= i,
            ;
            assert(i < i * i <= root * root) by (nonlinear_arith)
                requires
                    2 <= i <= root,
            ;
        }
        if markers[i] {
            primes.push(i as u64);
            eliminate_multiples(&mut markers, i * i, i);
        }
        proof {
            lemma_candidate_handled(marks, markers@, i as int, i * i);
            lemma_candidate_listed(listed, primes@, i as int);
        }
        i += 1;
    }
    collect_marked(&markers, root + 1, &mut primes);
    proof {
        lemma_tail_completes(markers@, root + 1, root + 1);
        lemma_prime_list(primes@, n as int);
    }
    primes
}

/// The primes up to `n` by a sieve over the odd candidates only.
///
/// The marker array starts with the even numbers beyond 2 cleared, so 2 is
/// appended at once and only the odd candidates from 3 to the square root of
/// `n` are handled, the multiples of each cleared from its square on. The
/// flags beyond the root are then read off as they stand.
pub fn sieve_004(n: u64) -> (primes: Vec<u64>)
    requires
        n < usize::MAX,
    ensures
        values(primes@) == primes_up_to(n as int),
        strictly_increasing(values(primes@)),
        primes@.no_duplicates(),
        forall|k: int|
            0 <= k < primes@.len() ==> 2 <= #[trigger] primes@[k] <= n && is_prime(
                primes@[k] as int,
            ),
        forall|m: int|
            2 <= m <= n && !values(primes@).contains(m) ==> exists|d: int|
                2 <= d < m && #[trigger] divides(d, m),
{
    let mut primes: Vec<u64> = Vec::new();
    if n < 2 {
        proof {
            assert(values(primes@) =~= primes_up_to(n as int));
            lemma_prime_list(primes@, n as int);
        }
        return primes;
    }
    let top: usize = n as usize;
    let mut markers = packed_markers(n);
    proof {
        lemma_odd_candidates_start(n as int);
        assert(values(primes@) =~= primes_up_to(1));
        lemma_candidate_listed(primes@, primes@.push(2), 2);
    }
    primes.push(2);
    let exact_root: u64 = sqrt(n);
    proof {
        lemma_floor_sqrt_range(n as int, exact_root as int);
    }
    let root: usize = exact_root as usize;
    let mut i: usize = 3;
    while i <= root
        invariant
            top == n,
            n < usize::MAX,
            is_floor_sqrt(n as int, root as int),
            3 <= i <= root + 2,
            i % 2 == 1,
            markers@ == sifted_markers((top + 1) as nat, i as int),
            values(primes@) == primes_up_to(i - 1),
        decreases root + 2 - i,
    {
        let ghost marks = markers@;
        let ghost listed = primes@;
        proof {
            assert(divides(i as int, i * i)) by (nonlinear_arith)
                requires
                    3 <= i,
            ;
            assert(i + 2 < i * i <= root * root) by (nonlinear_arith)
                requires
                    3 <= i <= root,
            ;
        }
        if markers[i] {
            primes.push(i as u64);
            eliminate_multiples(&mut markers, i * i, i);
        }
        proof {
            lemma_candidate_handled(marks, markers@, i as int, i * i);
            lemma_candidate_listed(listed, primes@, i as int);
            lemma_even_candidate_skipped((top + 1) as nat, i + 1);
        }
        i += 2;
    }
    let from: usize = if root < 2 {
        3
    } else {
        root + 1
    };
    proof {
        if from < i {
            lemma_even_candidate_skipped((top + 1) as nat, i - 1);
        }
        assert((root + 1) * (root + 1) <= i * i) by (nonlinear_arith)
            requires
                0 <= root < i,
        ;
    }
    collect_marked(&markers, from, &mut primes);
    proof {
        lemma_tail_completes(markers@, i as int, from as int);
        lemma_prime_list(primes@, n as int);
    }
    primes
}

} // verus!
