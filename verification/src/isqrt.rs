//! Integer square root by Newton's method.

use vstd::prelude::*;

verus! {

/// `r` is the largest integer whose square does not exceed `n`.
pub open spec fn is_floor_sqrt(n: int, r: int) -> bool {
    &&& 0 <= r
    &&& r * r <= n
    &&& n < (r + 1) * (r + 1)
}

/// The floor of the square root of `n` is no larger than `n`, and at least 1
/// where `n` is.
pub proof fn lemma_floor_sqrt_range(n: int, r: int)
    requires
        is_floor_sqrt(n, r),
    ensures
        r <= n,
        1 <= n ==> 1 <= r,
{
    assert(r <= n) by (nonlinear_arith)
        requires
            0 <= r,
            r * r <= n,
    ;
    assert(1 <= n ==> 1 <= r) by (nonlinear_arith)
        requires
            0 <= r,
            n < (r + 1) * (r + 1),
    ;
}

/// One Newton step from `x` towards the square root of `n`.
pub open spec fn newton_step(n: int, x: int) -> int {
    (x + n / x) / 2
}

/// A Newton step never lands below the floor of the square root: the square
/// of its successor is beyond `n`.
pub proof fn lemma_newton_step_stays_above(n: int, x: int)
    requires
        0 <= n,
        1 <= x,
    ensures
        n < (newton_step(n, x) + 1) * (newton_step(n, x) + 1),
{
    let q = n / x;
    let r = n % x;
    let y = newton_step(n, x);
    vstd::arithmetic::div_mod::lemma_fundamental_div_mod(n, x);
    vstd::arithmetic::div_mod::lemma_mod_bound(n, x);
    assert(n == x * q + r);
    assert(0 <= r < x);
    assert(2 * y + 1 >= x + q);
    assert(n < (y + 1) * (y + 1)) by (nonlinear_arith)
        requires
            n == x * q + r,
            0 <= r < x,
            2 * y + 1 >= x + q,
            1 <= x,
            0 <= n,
    {
        assert(0 <= q) by {
            if q < 0 {
                assert(x * q <= -x);
            }
        }
        let t = x + q + 1;
        assert(2 * (y + 1) >= t);
        assert(t >= 2);
        assert(4 * ((y + 1) * (y + 1)) >= t * t);
        assert(t * t - 4 * (x * q) - 4 * x + 4 == (x - q - 1) * (x - q - 1) + 4);
        assert((x - q - 1) * (x - q - 1) >= 0);
    }
}

/// Where a Newton step does not go down, `x` is no larger than the root.
pub proof fn lemma_newton_fixpoint_below(n: int, x: int)
    requires
        0 <= n,
        1 <= x,
        newton_step(n, x) >= x,
    ensures
        x * x <= n,
{
    let q = n / x;
    vstd::arithmetic::div_mod::lemma_fundamental_div_mod(n, x);
    vstd::arithmetic::div_mod::lemma_mod_bound(n, x);
    assert(q >= x);
    assert(x * x <= n) by (nonlinear_arith)
        requires
            n == x * q + n % x,
            0 <= n % x,
            q >= x,
            1 <= x,
    {
        assert(x * q >= x * x);
    }
}

/// The floor of the square root of `n`.
///
/// Newton's iteration on integers: starting from `n`, each step replaces `x`
/// by the mean of `x` and `n / x`, as long as that mean is smaller.
pub fn sqrt(n: u64) -> (r: u64)
    ensures
        is_floor_sqrt(n as int, r as int),
{
    let mut x: u64 = n;
    // (x + 1) / 2, written so that the sum cannot overflow
    let mut y: u64 = x / 2 + x % 2;
    proof {
        if n >= 1 {
            vstd::arithmetic::div_mod::lemma_div_by_self(n as int);
            assert(n as int / n as int == 1);
            assert(newton_step(n as int, n as int) == (n + 1) / 2);
            assert(n < (n + 1) * (n + 1)) by (nonlinear_arith)
                requires
                    n >= 1,
            ;
        }
    }
    while y < x
        invariant
            x <= n,
            n == 0 ==> x == 0 && y == 0,
            n >= 1 ==> x >= 1 && y as int == newton_step(n as int, x as int),
            (n as int) < (x + 1) * (x + 1),
            y < x ==> y <= n / 2 + 1,
        decreases x,
    {
        proof {
            lemma_newton_step_stays_above(n as int, x as int);
            let yi = y as int;
            assert(yi >= 1) by (nonlinear_arith)
                requires
                    (n as int) < (yi + 1) * (yi + 1),
                    n >= 1,
                    yi >= 0,
            ;
        }
        x = y;
        proof {
            if x >= 2 {
                vstd::arithmetic::div_mod::lemma_div_is_ordered_by_denominator(n as int, 2, x as int);
            } else {
                assert(n < 4) by (nonlinear_arith)
                    requires
                        (n as int) < (x + 1) * (x + 1),
                        x == 1,
                ;
                vstd::arithmetic::div_mod::lemma_div_basics(n as int);
            }
        }
        y = (x + n / x) / 2;
    }
    proof {
        if n >= 1 {
            lemma_newton_fixpoint_below(n as int, x as int);
        }
    }
    x
}

} // verus!
