//! Rounding and saturation: the two places where a result leaves exact arithmetic.

use vstd::prelude::*;

verus! {

/// The number of units in 1.0: quantities are counted in millionths.
pub const SCALE: i64 = 1_000_000;

/// `n / d` rounded to the nearest integer, a tie going upwards.
pub open spec fn round_div(n: int, d: int) -> int
    recommends
        d > 0,
{
    (2 * n + d) / (2 * d)
}

/// The value of `i64` nearest to `v`.
pub open spec fn clamp_i64(v: int) -> int {
    if v < i64::MIN {
        i64::MIN as int
    } else if v > i64::MAX {
        i64::MAX as int
    } else {
        v
    }
}

/// The largest magnitude of a numerator or denominator that [`div_round`] takes.
pub const DIV_LIMIT: i128 = 0x2000_0000_0000_0000_0000_0000_0000_0000;

/// Rounding never moves a quotient past a whole number: `k * d <= n` gives
/// `k <= round_div(n, d)`, and `n <= k * d` gives `round_div(n, d) <= k`.
pub proof fn lemma_round_div_bounds(n: int, d: int, k: int)
    requires
        d > 0,
    ensures
        k * d <= n ==> k <= round_div(n, d),
        n <= k * d ==> round_div(n, d) <= k,
        n == k * d ==> round_div(n, d) == k,
{
    let a = 2 * n + d;
    let b = 2 * d;
    let q = a / b;
    assert(a == b * q + a % b && 0 <= a % b < b) by {
        vstd::arithmetic::div_mod::lemma_fundamental_div_mod(a, b);
        vstd::arithmetic::div_mod::lemma_mod_bound(a, b);
    }
    if k * d <= n {
        assert(k <= q) by (nonlinear_arith)
            requires
                k * d <= n,
                a == 2 * n + d,
                b == 2 * d,
                a == b * q + a % b,
                a % b < b,
                d > 0,
        {
            if q < k {
                assert(b * q <= b * (k - 1));
            }
        }
    }
    if n <= k * d {
        assert(q <= k) by (nonlinear_arith)
            requires
                n <= k * d,
                a == 2 * n + d,
                b == 2 * d,
                a == b * q + a % b,
                0 <= a % b,
                d > 0,
        {
            if q > k {
                assert(b * q >= b * (k + 1));
            }
        }
    }
}

/// The quotient that `n / d` is within a half of is the rounded quotient.
pub proof fn lemma_round_div_is(n: int, d: int, k: int)
    requires
        d > 0,
        (2 * k - 1) * d <= 2 * n < (2 * k + 1) * d,
    ensures
        round_div(n, d) == k,
{
    assert(2 * n + d == k * (2 * d) + (2 * n + d - (2 * k) * d) && 0 <= 2 * n + d - (2 * k) * d
        < 2 * d) by (nonlinear_arith)
        requires
            (2 * k - 1) * d <= 2 * n < (2 * k + 1) * d,
    ;
    vstd::arithmetic::div_mod::lemma_fundamental_div_mod_converse(
        2 * n + d,
        2 * d,
        k,
        2 * n + d - (2 * k) * d,
    );
}

/// A larger numerator never rounds to a smaller quotient.
pub proof fn lemma_round_div_monotonic(n1: int, n2: int, d: int)
    requires
        d > 0,
        n1 <= n2,
    ensures
        round_div(n1, d) <= round_div(n2, d),
{
    vstd::arithmetic::div_mod::lemma_div_is_ordered(2 * n1 + d, 2 * n2 + d, 2 * d);
}

/// A smaller fraction never rounds to a larger quotient: `n1 / d1 <= n2 / d2`,
/// with the denominators cleared, gives
/// `round_div(n1, d1) <= round_div(n2, d2)`.
pub proof fn lemma_round_div_ordered(n1: int, d1: int, n2: int, d2: int)
    requires
        d1 > 0,
        d2 > 0,
        n1 * d2 <= n2 * d1,
    ensures
        round_div(n1, d1) <= round_div(n2, d2),
{
    let q1 = round_div(n1, d1);
    let q2 = round_div(n2, d2);
    let r1 = (2 * n1 + d1) % (2 * d1);
    let r2 = (2 * n2 + d2) % (2 * d2);
    vstd::arithmetic::div_mod::lemma_fundamental_div_mod(2 * n1 + d1, 2 * d1);
    vstd::arithmetic::div_mod::lemma_fundamental_div_mod(2 * n2 + d2, 2 * d2);
    vstd::arithmetic::div_mod::lemma_mod_bound(2 * n1 + d1, 2 * d1);
    vstd::arithmetic::div_mod::lemma_mod_bound(2 * n2 + d2, 2 * d2);
    if q2 < q1 {
        let k = q2 + 1;
        assert((2 * d1) * q1 >= (2 * d1) * k) by (nonlinear_arith)
            requires
                q1 >= k,
                d1 > 0,
        ;
        assert((2 * d2) * q2 + r2 < (2 * d2) * k) by (nonlinear_arith)
            requires
                k == q2 + 1,
                r2 < 2 * d2,
        ;
        // (2 n1 + d1) d2 >= 2 d1 d2 k > (2 n2 + d2) d1
        assert((2 * n1 + d1) * d2 >= ((2 * d1) * k) * d2) by (nonlinear_arith)
            requires
                2 * n1 + d1 >= (2 * d1) * k,
                d2 > 0,
        ;
        assert((2 * n2 + d2) * d1 < ((2 * d2) * k) * d1) by (nonlinear_arith)
            requires
                2 * n2 + d2 < (2 * d2) * k,
                d1 > 0,
        ;
        assert(false) by (nonlinear_arith)
            requires
                (2 * n1 + d1) * d2 >= ((2 * d1) * k) * d2,
                (2 * n2 + d2) * d1 < ((2 * d2) * k) * d1,
                n1 * d2 <= n2 * d1,
        ;
    }
}

/// Rounding a sum differs by at most one from the sum of the roundings.
pub proof fn lemma_round_div_additive(n1: int, n2: int, d: int)
    requires
        d > 0,
    ensures
        -1 <= round_div(n1 + n2, d) - (round_div(n1, d) + round_div(n2, d)) <= 1,
{
    let q1 = round_div(n1, d);
    let q2 = round_div(n2, d);
    let q = round_div(n1 + n2, d);
    let r1 = (2 * n1 + d) % (2 * d);
    let r2 = (2 * n2 + d) % (2 * d);
    let r = (2 * (n1 + n2) + d) % (2 * d);
    vstd::arithmetic::div_mod::lemma_fundamental_div_mod(2 * n1 + d, 2 * d);
    vstd::arithmetic::div_mod::lemma_fundamental_div_mod(2 * n2 + d, 2 * d);
    vstd::arithmetic::div_mod::lemma_fundamental_div_mod(2 * (n1 + n2) + d, 2 * d);
    vstd::arithmetic::div_mod::lemma_mod_bound(2 * n1 + d, 2 * d);
    vstd::arithmetic::div_mod::lemma_mod_bound(2 * n2 + d, 2 * d);
    vstd::arithmetic::div_mod::lemma_mod_bound(2 * (n1 + n2) + d, 2 * d);
    assert(-1 <= q - (q1 + q2) <= 1) by (nonlinear_arith)
        requires
            d > 0,
            2 * n1 + d == (2 * d) * q1 + r1,
            2 * n2 + d == (2 * d) * q2 + r2,
            2 * (n1 + n2) + d == (2 * d) * q + r,
            0 <= r1 < 2 * d,
            0 <= r2 < 2 * d,
            0 <= r < 2 * d,
    {
        assert((2 * d) * (q - (q1 + q2)) == r1 + r2 - d - r);
        if q - (q1 + q2) >= 2 {
            assert((2 * d) * (q - (q1 + q2)) >= (2 * d) * 2);
        }
        if q - (q1 + q2) <= -2 {
            assert((2 * d) * (q - (q1 + q2)) <= (2 * d) * (-2));
        }
    }
}

/// Rounding `k` times a quotient differs by at most `k / 2` from `k` times
/// the rounded quotient.
pub proof fn lemma_round_div_scaled(n: int, d: int, k: int)
    requires
        d > 0,
        k >= 0,
    ensures
        -k <= 2 * (round_div(k * n, d) - k * round_div(n, d)) <= k,
{
    let q = round_div(n, d);
    let r = (2 * n + d) % (2 * d);
    let qk = round_div(k * n, d);
    let rk = (2 * (k * n) + d) % (2 * d);
    vstd::arithmetic::div_mod::lemma_fundamental_div_mod(2 * n + d, 2 * d);
    vstd::arithmetic::div_mod::lemma_fundamental_div_mod(2 * (k * n) + d, 2 * d);
    vstd::arithmetic::div_mod::lemma_mod_bound(2 * n + d, 2 * d);
    vstd::arithmetic::div_mod::lemma_mod_bound(2 * (k * n) + d, 2 * d);
    let delta = qk - k * q;
    assert((2 * d) * delta == k * (r - d) + d - rk) by (nonlinear_arith)
        requires
            delta == qk - k * q,
            2 * n + d == (2 * d) * q + r,
            2 * (k * n) + d == (2 * d) * qk + rk,
    ;
    assert(-(k * d) <= k * (r - d) <= k * (d - 1)) by (nonlinear_arith)
        requires
            k >= 0,
            0 <= r < 2 * d,
    ;
    assert(-k <= 2 * delta <= k) by (nonlinear_arith)
        requires
            d > 0,
            k >= 0,
            (2 * d) * delta == k * (r - d) + d - rk,
            -(k * d) <= k * (r - d) <= k * (d - 1),
            0 <= rk < 2 * d,
    {
        if 2 * delta >= k + 1 {
            assert(d * (2 * delta) >= d * (k + 1));
        }
        if 2 * delta <= -k - 1 {
            assert(d * (2 * delta) <= d * (-k - 1));
        }
    }
}

/// Divides and rounds to the nearest integer, a tie going upwards.
pub fn div_round(n: i128, d: i128) -> (r: i128)
    requires
        0 < d <= DIV_LIMIT,
        -DIV_LIMIT <= n <= DIV_LIMIT,
    ensures
        r == round_div(n as int, d as int),
{
    let a: i128 = 2 * n + d;
    let b: i128 = 2 * d;
    if a >= 0 {
        a / b
    } else {
        let q: i128 = (-a) / b;
        let m: i128 = (-a) % b;
        proof {
            vstd::arithmetic::div_mod::lemma_fundamental_div_mod(-a as int, b as int);
            vstd::arithmetic::div_mod::lemma_mod_bound(-a as int, b as int);
        }
        if m == 0 {
            proof {
                assert(a == (-q) * b) by (nonlinear_arith)
                    requires
                        -a == b * q + m,
                        m == 0,
                ;
                vstd::arithmetic::div_mod::lemma_fundamental_div_mod_converse(
                    a as int,
                    b as int,
                    -q as int,
                    0,
                );
            }
            -q
        } else {
            proof {
                assert(a == (-q - 1) * b + (b - m)) by (nonlinear_arith)
                    requires
                        -a == b * q + m,
                ;
                vstd::arithmetic::div_mod::lemma_fundamental_div_mod_converse(
                    a as int,
                    b as int,
                    -q - 1,
                    b - m,
                );
            }
            -q - 1
        }
    }
}

/// Narrows to `i64`, a value out of range going to the nearer end.
pub fn saturate(v: i128) -> (r: i64)
    ensures
        r == clamp_i64(v as int),
{
    if v < -0x8000_0000_0000_0000 {
        i64::MIN
    } else if v > 0x7fff_ffff_ffff_ffff {
        i64::MAX
    } else {
        v as i64
    }
}

} // verus!
